//! Mode-name parsing and the small preprocessing and method selectors.

use vstd::prelude::*;

use crate::cost::{cost_lt, Cost, Dist};
use crate::dtw::Mode;
use crate::dtw_chiba::{band_ok, chiba_score};
use crate::errors::DtwError;

verus! {

/// Preprocessing choice applied to a query before alignment: histogram
/// equalization, or nothing.
#[derive(Debug, Clone, Copy, PartialEq, Eq, Structural)]
pub enum Prep {
    /// Histogram-equalize the query first.
    Flat,
    /// No preprocessing.
    Normal,
}

/// Search method selector: a banded or subsequence alignment, each under a
/// plain squared-difference metric or a saturating hill metric.
#[derive(Debug, Clone, Copy, PartialEq, Eq, Structural)]
pub enum Method {
    /// Sakoe-Chiba band with the squared-difference metric.
    ChibaNormal,
    /// Sakoe-Chiba band with the hill metric.
    ChibaHill,
    /// Subsequence alignment with the squared-difference metric.
    SubNormal,
    /// Subsequence alignment with the hill metric.
    SubHill,
}

/// Whether the two character sequences are equal.
fn str_is(s: &str, t: &str) -> (r: bool)
    ensures
        r == (s@ == t@),
{
    let sl = s.unicode_len();
    let tl = t.unicode_len();
    if sl != tl {
        proof {
            assert(s@ != t@);
        }
        return false;
    }
    let mut i: usize = 0;
    while i < sl
        invariant
            i <= sl,
            sl == s@.len(),
            sl == t@.len(),
            forall|k: int| 0 <= k < i ==> s@[k] == t@[k],
        decreases sl - i,
    {
        if s.get_char(i) != t.get_char(i) {
            proof {
                assert(s@ != t@);
            }
            return false;
        }
        i = i + 1;
    }
    proof {
        assert(s@ =~= t@);
    }
    true
}

impl Prep {
    /// Builds the preprocessing choice from its upper-case name.
    pub fn new(prep: &str) -> (res: Option<Prep>)
        ensures
            res == if prep@ == "FLAT"@ {
                Some(Prep::Flat)
            } else if prep@ == "NORMAL"@ {
                Some(Prep::Normal)
            } else {
                None::<Prep>
            },
    {
        if str_is(prep, "FLAT") {
            Some(Prep::Flat)
        } else if str_is(prep, "NORMAL") {
            Some(Prep::Normal)
        } else {
            None
        }
    }

    /// The choice's name.
    pub fn name(&self) -> (r: String)
        ensures
            *self is Flat ==> r@ == "Flat"@,
            *self is Normal ==> r@ == "Normal"@,
    {
        match self {
            Prep::Flat => "Flat".to_owned(),
            Prep::Normal => "Normal".to_owned(),
        }
    }
}

impl Method {
    /// Builds the method selector from its upper-case name.
    pub fn new(method: &str) -> (res: Option<Method>)
        ensures
            res == if method@ == "CHIBANORMAL"@ {
                Some(Method::ChibaNormal)
            } else if method@ == "CHIBAHILL"@ {
                Some(Method::ChibaHill)
            } else if method@ == "SUBNORMAL"@ {
                Some(Method::SubNormal)
            } else if method@ == "SUBHILL"@ {
                Some(Method::SubHill)
            } else {
                None::<Method>
            },
    {
        if str_is(method, "CHIBANORMAL") {
            Some(Method::ChibaNormal)
        } else if str_is(method, "CHIBAHILL") {
            Some(Method::ChibaHill)
        } else if str_is(method, "SUBNORMAL") {
            Some(Method::SubNormal)
        } else if str_is(method, "SUBHILL") {
            Some(Method::SubHill)
        } else {
            None
        }
    }

    /// The selector's name.
    pub fn name(&self) -> (r: String)
        ensures
            *self is ChibaHill ==> r@ == "ChibaHill"@,
            *self is ChibaNormal ==> r@ == "ChibaNormal"@,
            *self is SubHill ==> r@ == "SubHill"@,
            *self is SubNormal ==> r@ == "SubNormal"@,
    {
        match self {
            Method::ChibaHill => "ChibaHill".to_owned(),
            Method::ChibaNormal => "ChibaNormal".to_owned(),
            Method::SubHill => "SubHill".to_owned(),
            Method::SubNormal => "SubNormal".to_owned(),
        }
    }
}

/// Whether `p` is a prefix of `s`.
pub open spec fn spec_starts_with(s: Seq<char>, p: Seq<char>) -> bool {
    p.len() <= s.len() && s.take(p.len() as int) == p
}

/// Whether the character is a decimal digit.
pub open spec fn is_digit(c: char) -> bool {
    '0' as u32 <= c as u32 <= '9' as u32
}

/// The value of a string of decimal digits.
pub open spec fn digits_val(t: Seq<char>) -> int
    decreases t.len(),
{
    if t.len() == 0 {
        0
    } else {
        digits_val(t.drop_last()) * 10 + (t.last() as u32 - '0' as u32)
    }
}

/// The number a field denotes: defined when the field is a non-empty string
/// of decimal digits whose value fits the machine.
pub open spec fn parse_num(t: Seq<char>) -> Option<int> {
    if t.len() >= 1 && (forall|k: int| 0 <= k < t.len() ==> is_digit(#[trigger] t[k])) && digits_val(
        t,
    ) <= usize::MAX {
        Some(digits_val(t))
    } else {
        None
    }
}

/// The position of the first comma at or after `from`, or the length.
pub open spec fn find_comma(s: Seq<char>, from: int) -> int
    decreases s.len() - from when from >= 0
{
    if from >= s.len() {
        s.len() as int
    } else if s[from] == ',' {
        from
    } else {
        find_comma(s, from + 1)
    }
}

/// The first comma position never lies before `from` nor past the end.
pub proof fn lemma_find_comma_ge(s: Seq<char>, from: int)
    requires
        0 <= from,
    ensures
        find_comma(s, from) <= s.len(),
        from <= s.len() ==> from <= find_comma(s, from),
    decreases s.len() - from,
{
    if from < s.len() && s[from] != ',' {
        lemma_find_comma_ge(s, from + 1);
    }
}

#[via_fn]
proof fn parsed_fields_decreases(s: Seq<char>, from: int) {
    if from <= s.len() {
        lemma_find_comma_ge(s, from);
    }
}

/// The numbers denoted by the comma-separated fields starting at `from`;
/// fields that denote no number are skipped.
pub open spec fn parsed_fields(s: Seq<char>, from: int) -> Seq<int>
    decreases s.len() - from when from >= 0 via parsed_fields_decreases
{
    if from > s.len() {
        Seq::empty()
    } else {
        let end = find_comma(s, from);
        let head: Seq<int> = match parse_num(s.subrange(from, end)) {
            Some(v) => Seq::empty().push(v),
            None => Seq::empty(),
        };
        if end >= s.len() {
            head
        } else {
            head + parsed_fields(s, end + 1)
        }
    }
}

/// The mode a name denotes, if any: a mode word, then mode-specific numeric
/// fields separated by commas.
pub open spec fn spec_get_mode(s: Seq<char>) -> Option<Mode> {
    if spec_starts_with(s, seq!['S', 'u', 'b']) {
        Some(Mode::Sub)
    } else if spec_starts_with(s, seq!['C', 'h', 'i', 'b', 'a']) {
        match parse_num(second_field(s)) {
            Some(b) => Some(Mode::SakoeChiba(b as usize)),
            None => None,
        }
    } else if spec_starts_with(s, seq!['S', 'c', 'o', 'u', 't', 'i', 'n', 'g']) {
        let flds = tail_fields(s);
        if flds.len() == 2 {
            Some(Mode::Scouting(flds[0] as usize, flds[1] as usize))
        } else {
            None
        }
    } else if spec_starts_with(s, seq!['F', 'a', 's', 't']) {
        match parse_num(second_field(s)) {
            Some(b) => Some(Mode::Fast(b as usize)),
            None => None,
        }
    } else {
        None
    }
}

/// The text between the first and second commas (empty when there is none).
pub open spec fn second_field(s: Seq<char>) -> Seq<char> {
    let c1 = find_comma(s, 0);
    if c1 >= s.len() {
        Seq::empty()
    } else {
        s.subrange(c1 + 1, find_comma(s, c1 + 1))
    }
}

/// The numbers denoted by every field after the first comma.
pub open spec fn tail_fields(s: Seq<char>) -> Seq<int> {
    let c1 = find_comma(s, 0);
    if c1 >= s.len() {
        Seq::empty()
    } else {
        parsed_fields(s, c1 + 1)
    }
}

/// Whether `p` is a prefix of `s`, checked character by character.
#[verifier::loop_isolation(false)]
fn starts_with(s: &str, p: &str) -> (r: bool)
    ensures
        r == spec_starts_with(s@, p@),
{
    let sl = s.unicode_len();
    let pl = p.unicode_len();
    if pl > sl {
        return false;
    }
    let mut i: usize = 0;
    while i < pl
        invariant
            i <= pl,
            pl <= sl,
            forall|k: int| 0 <= k < i ==> s@[k] == p@[k],
        decreases pl - i,
    {
        if s.get_char(i) != p.get_char(i) {
            proof {
                assert(s@.take(pl as int)[i as int] != p@[i as int]);
            }
            return false;
        }
        i = i + 1;
    }
    proof {
        assert(s@.take(pl as int) =~= p@);
    }
    true
}

/// Finds the first comma at or after `from`.
#[verifier::loop_isolation(false)]
fn find_comma_at(s: &str, from: usize) -> (r: usize)
    requires
        from <= s@.len(),
    ensures
        r as int == find_comma(s@, from as int),
        from <= r <= s@.len(),
{
    let sl = s.unicode_len();
    let mut i: usize = from;
    while i < sl
        invariant
            from <= i <= sl,
            find_comma(s@, from as int) == find_comma(s@, i as int),
        decreases sl - i,
    {
        if s.get_char(i) == ',' {
            return i;
        }
        i = i + 1;
    }
    sl
}

/// Parses the characters in `[from, to)` as a decimal number.
#[verifier::loop_isolation(false)]
fn parse_field(s: &str, from: usize, to: usize) -> (r: Option<usize>)
    requires
        from <= to <= s@.len(),
    ensures
        match r {
            Some(v) => parse_num(s@.subrange(from as int, to as int)) == Some(v as int),
            None => parse_num(s@.subrange(from as int, to as int)) is None,
        },
{
    let ghost fld = s@.subrange(from as int, to as int);
    if from == to {
        return None;
    }
    let mut acc: usize = 0;
    let mut i: usize = from;
    while i < to
        invariant
            from <= i <= to,
            forall|k: int| 0 <= k < i - from ==> is_digit(#[trigger] fld[k]),
            acc as int == digits_val(fld.take(i - from)),
        decreases to - i,
    {
        let c = s.get_char(i);
        if c < '0' || c > '9' {
            proof {
                assert(fld[i - from] == c);
                assert(!is_digit(fld[i - from]));
            }
            return None;
        }
        let d = (c as u32 - '0' as u32) as usize;
        if acc > (usize::MAX - d) / 10 {
            // The value no longer fits the machine; digits only grow it.
            proof {
                assert(fld.take(i + 1 - from).drop_last() =~= fld.take(i - from));
                assert(fld.take(i + 1 - from).last() == c);
                assert(digits_val(fld.take(i + 1 - from)) == acc * 10 + d);
                assert(acc * 10 + d > usize::MAX) by (nonlinear_arith)
                    requires
                        acc > (usize::MAX - d) / 10,
                        0 <= d <= 9,
                        acc >= 0,
                ;
                if forall|k: int| 0 <= k < fld.len() ==> is_digit(#[trigger] fld[k]) {
                    lemma_digits_grow(fld, i + 1 - from, fld.len() as int);
                    assert(fld.take(fld.len() as int) =~= fld);
                }
            }
            return None;
        }
        acc = acc * 10 + d;
        proof {
            assert(fld.take(i + 1 - from).drop_last() =~= fld.take(i - from));
            assert(fld.take(i + 1 - from).last() == c);
        }
        i = i + 1;
    }
    proof {
        assert(fld.take(to - from) =~= fld);
    }
    Some(acc)
}

/// A longer digit string never denotes a smaller value.
proof fn lemma_digits_grow(t: Seq<char>, a: int, b: int)
    requires
        0 <= a <= b <= t.len(),
        forall|k: int| 0 <= k < b ==> is_digit(#[trigger] t[k]),
    ensures
        digits_val(t.take(a)) <= digits_val(t.take(b)),
        digits_val(t.take(b)) >= 0,
    decreases b - a,
{
    if a == b {
        lemma_digits_nonneg(t.take(a));
    } else {
        lemma_digits_grow(t, a, b - 1);
        assert(t.take(b).drop_last() =~= t.take(b - 1));
        lemma_digits_nonneg(t.take(b - 1));
        assert(digits_val(t.take(b)) == digits_val(t.take(b - 1)) * 10 + (t.take(b).last() as u32
            - '0' as u32));
        assert(digits_val(t.take(b - 1)) * 10 >= digits_val(t.take(b - 1))) by (nonlinear_arith)
            requires
                digits_val(t.take(b - 1)) >= 0,
        ;
    }
}

/// A digit string never denotes a negative value.
proof fn lemma_digits_nonneg(t: Seq<char>)
    ensures
        (forall|k: int| 0 <= k < t.len() ==> is_digit(#[trigger] t[k])) ==> digits_val(t) >= 0,
    decreases t.len(),
{
    if t.len() > 0 {
        lemma_digits_nonneg(t.drop_last());
        assert(forall|k: int| 0 <= k < t.len() - 1 ==> t.drop_last()[k] == t[k]);
        if forall|k: int| 0 <= k < t.len() ==> is_digit(#[trigger] t[k]) {
            assert(digits_val(t.drop_last()) * 10 >= 0) by (nonlinear_arith)
                requires
                    digits_val(t.drop_last()) >= 0,
            ;
        }
    }
}

/// Parses a mode name: `Sub`, `Chiba` with a band width, `Scouting` with a
/// scout and a pack count, or `Fast` with a radius, the numeric fields
/// separated from the word (and each other) by commas.
#[verifier::loop_isolation(false)]
pub fn get_mode(mode: &str) -> (res: Result<Mode, DtwError>)
    requires
        mode@.len() < usize::MAX,
    ensures
        res matches Ok(m) ==> spec_get_mode(mode@) == Some(m),
        res is Err <==> spec_get_mode(mode@) is None,
        res matches Err(e) ==> e == DtwError::InvalidInput,
{
    if starts_with(mode, "Sub") {
        proof {
            reveal_strlit("Sub");
            assert("Sub"@ =~= seq!['S', 'u', 'b']);
        }
        Ok(Mode::Sub)
    } else if starts_with(mode, "Chiba") {
        proof {
            reveal_strlit("Sub");
            reveal_strlit("Chiba");
            assert("Sub"@ =~= seq!['S', 'u', 'b']);
            assert("Chiba"@ =~= seq!['C', 'h', 'i', 'b', 'a']);
        }
        let c1 = find_comma_at(mode, 0);
        if c1 == mode.unicode_len() {
            return Err(DtwError::InvalidInput);
        }
        let c2 = find_comma_at(mode, c1 + 1);
        match parse_field(mode, c1 + 1, c2) {
            Some(b) => Ok(Mode::SakoeChiba(b)),
            None => Err(DtwError::InvalidInput),
        }
    } else if starts_with(mode, "Scouting") {
        proof {
            reveal_strlit("Sub");
            reveal_strlit("Chiba");
            reveal_strlit("Scouting");
            assert("Sub"@ =~= seq!['S', 'u', 'b']);
            assert("Chiba"@ =~= seq!['C', 'h', 'i', 'b', 'a']);
            assert("Scouting"@ =~= seq!['S', 'c', 'o', 'u', 't', 'i', 'n', 'g']);
        }
        let c1 = find_comma_at(mode, 0);
        if c1 == mode.unicode_len() {
            proof {
                assert(tail_fields(mode@) =~= Seq::<int>::empty());
            }
            return Err(DtwError::InvalidInput);
        }
        let mut contents: Vec<usize> = Vec::new();
        let mut at: usize = c1 + 1;
        let sl = mode.unicode_len();
        while at <= sl
            invariant
                c1 + 1 <= at <= sl + 1,
                sl == mode@.len(),
                contents@.map_values(|v: usize| v as int) =~= parsed_fields(
                    mode@,
                    c1 + 1,
                ).take(contents@.len() as int),
                parsed_fields(mode@, c1 + 1) =~= contents@.map_values(|v: usize| v as int)
                    + (if at <= sl {
                    parsed_fields(mode@, at as int)
                } else {
                    Seq::<int>::empty()
                }),
            decreases sl + 1 - at,
        {
            let e = find_comma_at(mode, at);
            let ghost before = contents@;
            match parse_field(mode, at, e) {
                Some(v) => {
                    contents.push(v);
                },
                None => {},
            }
            proof {
                assert(contents@.map_values(|v: usize| v as int) =~= before.map_values(
                    |v: usize| v as int,
                ) + (match parse_num(mode@.subrange(at as int, find_comma(mode@, at as int))) {
                    Some(v) => Seq::<int>::empty().push(v),
                    None => Seq::<int>::empty(),
                }));
                assert(parsed_fields(mode@, at as int) == (match parse_num(
                    mode@.subrange(at as int, find_comma(mode@, at as int)),
                ) {
                    Some(v) => Seq::<int>::empty().push(v),
                    None => Seq::<int>::empty(),
                }) + (if find_comma(mode@, at as int) >= sl {
                    Seq::<int>::empty()
                } else {
                    parsed_fields(mode@, find_comma(mode@, at as int) + 1)
                }));
            }
            at = e + 1;
        }
        proof {
            assert(contents@.map_values(|v: usize| v as int) =~= tail_fields(mode@));
        }
        if contents.len() == 2 {
            let a = contents[0];
            let b = contents[1];
            proof {
                assert(tail_fields(mode@)[0] == a as int);
                assert(tail_fields(mode@)[1] == b as int);
            }
            Ok(Mode::Scouting(a, b))
        } else {
            Err(DtwError::InvalidInput)
        }
    } else if starts_with(mode, "Fast") {
        proof {
            reveal_strlit("Sub");
            reveal_strlit("Chiba");
            reveal_strlit("Scouting");
            reveal_strlit("Fast");
            assert("Sub"@ =~= seq!['S', 'u', 'b']);
            assert("Chiba"@ =~= seq!['C', 'h', 'i', 'b', 'a']);
            assert("Scouting"@ =~= seq!['S', 'c', 'o', 'u', 't', 'i', 'n', 'g']);
            assert("Fast"@ =~= seq!['F', 'a', 's', 't']);
        }
        let c1 = find_comma_at(mode, 0);
        if c1 == mode.unicode_len() {
            return Err(DtwError::InvalidInput);
        }
        let c2 = find_comma_at(mode, c1 + 1);
        match parse_field(mode, c1 + 1, c2) {
            Some(b) => Ok(Mode::Fast(b)),
            None => Err(DtwError::InvalidInput),
        }
    } else {
        proof {
            reveal_strlit("Sub");
            reveal_strlit("Chiba");
            reveal_strlit("Scouting");
            reveal_strlit("Fast");
            assert("Sub"@ =~= seq!['S', 'u', 'b']);
            assert("Chiba"@ =~= seq!['C', 'h', 'i', 'b', 'a']);
            assert("Scouting"@ =~= seq!['S', 'c', 'o', 'u', 't', 'i', 'n', 'g']);
            assert("Fast"@ =~= seq!['F', 'a', 's', 't']);
        }
        Err(DtwError::InvalidInput)
    }
}


/// The state of the skipping scan after the first `p` reference windows:
/// the best banded score seen and how many upcoming windows are skipped.
/// A window is evaluated only when no skip is pending; an improvement skips
/// half a band ahead, anything else skips a tenth of the query.
pub open spec fn chiba_scan<D: Dist>(q: Seq<i32>, r: Seq<i32>, band: int, p: int) -> (Cost, int)
    decreases p,
{
    if p <= 0 {
        (Cost::Inf, 0int)
    } else {
        let prev = chiba_scan::<D>(q, r, band, p - 1);
        if prev.1 > 0 {
            (prev.0, prev.1 - 1)
        } else if band_ok(q.len() as int, q.len() as int, band) {
            let sc = chiba_score::<D>(q, r.subrange(p - 1, p - 1 + q.len()), band);
            if cost_lt(sc, prev.0) {
                (sc, band / 2)
            } else {
                (prev.0, q.len() as int / 10)
            }
        } else {
            (prev.0, 0int)
        }
    }
}

/// Slides a banded alignment over every query-sized window of the reference,
/// skipping ahead after each evaluated window: half a band after an
/// improvement, a tenth of the query otherwise.  Returns the best banded
/// score seen, or nothing when the mode carries no band.
#[verifier::loop_isolation(false)]
pub fn chiba_skipping_dtw<D: Dist>(query: &[i32], reference: &[i32], mode: Mode, dist: &D) -> (res:
    Option<Cost>)
    requires
        1 <= query@.len(),
        reference@.len() < usize::MAX,
        mode matches Mode::SakoeChiba(b) ==> (query@.len() + 1) * b <= usize::MAX,
    ensures
        !(mode matches Mode::SakoeChiba(_)) ==> res is None,
        mode matches Mode::SakoeChiba(b) ==> res == Some(
            chiba_scan::<D>(
                query@,
                reference@,
                b as int,
                reference@.len() - query@.len() + 1,
            ).0,
        ),
{
    let bandwidth = match mode {
        Mode::SakoeChiba(b) => b,
        _ => {
            return None;
        },
    };
    if query.len() > reference.len() {
        // No query-sized window exists, so no alignment is ever evaluated.
        return Some(Cost::Inf);
    }
    let ghost q = query@;
    let ghost r = reference@;
    let qlen = query.len();
    let windows = reference.len() - qlen;
    let mut best = Cost::Inf;
    let mut skip: usize = 0;
    let mut p: usize = 0;
    while p <= windows
        invariant
            p <= windows + 1,
            (best, skip as int) == chiba_scan::<D>(q, r, bandwidth as int, p as int),
        decreases windows + 1 - p,
    {
        if skip > 0 {
            skip = skip - 1;
        } else {
            let window = &reference[p..p + qlen];
            proof {
                assert(window@ == r.subrange(p as int, p + qlen));
            }
            match crate::dtw_chiba::dtw_chiba::<D>(query, window, dist, bandwidth) {
                Ok((score, _, _)) => {
                    if score.lt(&best) {
                        best = score;
                        skip = bandwidth / 2;
                    } else {
                        skip = qlen / 10;
                    }
                },
                Err(_) => {
                    skip = 0;
                },
            }
        }
        p = p + 1;
    }
    Some(best)
}

} // verus!

