//! Byte-level text utilities for the line-oriented manifest format: splitting
//! into lines, splitting a line into comma-separated fields, trimming
//! whitespace, and parsing unsigned integers. Each executable function is
//! proved equal to a direct spec-level definition.

use vstd::prelude::*;

verus! {

/// The ASCII characters that `char::is_whitespace` accepts.
pub open spec fn is_space(b: u8) -> bool {
    b == 32 || b == 9 || b == 10 || b == 11 || b == 12 || b == 13
}

/// A byte sequence with leading whitespace removed.
pub open spec fn trim_front(s: Seq<u8>) -> Seq<u8>
    decreases s.len(),
{
    if s.len() > 0 && is_space(s[0]) {
        trim_front(s.drop_first())
    } else {
        s
    }
}

/// A byte sequence with trailing whitespace removed.
pub open spec fn trim_back(s: Seq<u8>) -> Seq<u8>
    decreases s.len(),
{
    if s.len() > 0 && is_space(s[s.len() - 1]) {
        trim_back(s.drop_last())
    } else {
        s
    }
}

/// A byte sequence with surrounding whitespace removed.
pub open spec fn trimmed(s: Seq<u8>) -> Seq<u8> {
    trim_back(trim_front(s))
}

proof fn lemma_trim_front_skip(s: Seq<u8>, k: int)
    requires
        0 <= k <= s.len(),
        forall|j: int| 0 <= j < k ==> is_space(s[j]),
        k == s.len() || !is_space(s[k]),
    ensures
        trim_front(s) == s.skip(k),
    decreases k,
{
    if k == 0 {
        assert(s.skip(0) =~= s);
    } else {
        lemma_trim_front_skip(s.drop_first(), k - 1);
        assert(s.drop_first().skip(k - 1) =~= s.skip(k));
    }
}

proof fn lemma_trim_back_take(s: Seq<u8>, k: int)
    requires
        0 <= k <= s.len(),
        forall|j: int| k <= j < s.len() ==> is_space(s[j]),
        k == 0 || !is_space(s[k - 1]),
    ensures
        trim_back(s) == s.take(k),
    decreases s.len() - k,
{
    if k == s.len() {
        assert(s.take(k) =~= s);
    } else {
        lemma_trim_back_take(s.drop_last(), k);
        assert(s.drop_last().take(k) =~= s.take(k));
    }
}

fn is_space_exec(b: u8) -> (r: bool)
    ensures
        r == is_space(b),
{
    b == 32 || b == 9 || b == 10 || b == 11 || b == 12 || b == 13
}

/// A copy of `s` with surrounding whitespace removed.
pub fn trim(s: &Vec<u8>) -> (r: Vec<u8>)
    ensures
        r@ == trimmed(s@),
{
    let mut lo: usize = 0;
    while lo < s.len() && is_space_exec(s[lo])
        invariant
            0 <= lo <= s@.len(),
            forall|j: int| 0 <= j < lo ==> is_space(s@[j]),
        decreases s@.len() - lo,
    {
        lo = lo + 1;
    }
    proof {
        lemma_trim_front_skip(s@, lo as int);
    }
    let mut hi: usize = s.len();
    while hi > lo && is_space_exec(s[hi - 1])
        invariant
            lo <= hi <= s@.len(),
            forall|j: int| hi <= j < s@.len() ==> is_space(s@[j]),
        decreases hi,
    {
        hi = hi - 1;
    }
    proof {
        lemma_trim_back_take(s@.skip(lo as int), hi - lo);
        assert(s@.skip(lo as int).take(hi - lo) =~= s@.subrange(lo as int, hi as int));
    }
    let mut r: Vec<u8> = Vec::new();
    let mut i: usize = lo;
    while i < hi
        invariant
            lo <= i <= hi <= s@.len(),
            r@ =~= s@.subrange(lo as int, i as int),
        decreases hi - i,
    {
        r.push(s[i]);
        i = i + 1;
    }
    assert(r@ =~= s@.subrange(lo as int, hi as int));
    r
}

/// The index of the first occurrence of `b` in `s` at or after `i`, or
/// `s.len()` when there is none.
pub open spec fn find_from(s: Seq<u8>, i: int, b: u8) -> int
    decreases s.len() - i,
{
    if i < 0 || i >= s.len() {
        s.len() as int
    } else if s[i] == b {
        i
    } else {
        find_from(s, i + 1, b)
    }
}

proof fn lemma_find_from(s: Seq<u8>, k: int, i: int, b: u8)
    requires
        0 <= k <= i <= s.len(),
        forall|j: int| k <= j < i ==> s[j] != b,
        i == s.len() || s[i] == b,
    ensures
        find_from(s, k, b) == i,
    decreases i - k,
{
    if k < i {
        lemma_find_from(s, k + 1, i, b);
    }
}

/// A line of text, as `str::lines` produces it: the bytes before the line
/// feed, with one carriage return immediately before the line feed removed.
pub open spec fn strip_cr(l: Seq<u8>) -> Seq<u8> {
    if l.len() > 0 && l[l.len() - 1] == 13 {
        l.drop_last()
    } else {
        l
    }
}

/// The lines of `s`, split as `str::lines` splits: at each line feed, with a
/// carriage return directly before a line feed removed, and with no empty
/// final line when the text ends in a line feed. A lone carriage return does
/// not end a line.
pub open spec fn spec_lines(s: Seq<u8>) -> Seq<Seq<u8>>
    decreases s.len(),
{
    if s.len() == 0 {
        Seq::empty()
    } else {
        let i = find_from(s, 0, 10);
        if 0 <= i < s.len() {
            seq![strip_cr(s.take(i))] + spec_lines(s.skip(i + 1))
        } else {
            seq![s]
        }
    }
}

/// The comma-separated fields of `l`, split as `str::split(',')` splits:
/// every comma separates two fields, and the empty line holds one empty
/// field.
pub open spec fn spec_fields(l: Seq<u8>) -> Seq<Seq<u8>>
    decreases l.len(),
{
    let i = find_from(l, 0, 44);
    if 0 <= i < l.len() {
        seq![l.take(i)] + spec_fields(l.skip(i + 1))
    } else {
        seq![l]
    }
}

/// The fields of `l`, each with surrounding whitespace removed.
pub open spec fn fields_trimmed(l: Seq<u8>) -> Seq<Seq<u8>> {
    spec_fields(l).map_values(|f: Seq<u8>| trimmed(f))
}

/// The byte sequences that a vector of byte vectors holds.
pub open spec fn views(vs: Seq<Vec<u8>>) -> Seq<Seq<u8>> {
    vs.map_values(|v: Vec<u8>| v@)
}

/// A copy of `s[lo..hi]`.
pub fn subvec(s: &Vec<u8>, lo: usize, hi: usize) -> (r: Vec<u8>)
    requires
        lo <= hi <= s@.len(),
    ensures
        r@ == s@.subrange(lo as int, hi as int),
{
    let mut r: Vec<u8> = Vec::new();
    let mut i: usize = lo;
    while i < hi
        invariant
            lo <= i <= hi <= s@.len(),
            r@ =~= s@.subrange(lo as int, i as int),
        decreases hi - i,
    {
        r.push(s[i]);
        i = i + 1;
    }
    assert(r@ =~= s@.subrange(lo as int, hi as int));
    r
}

/// The lines of `s`, exactly as `spec_lines` describes them.
pub fn split_lines(s: &Vec<u8>) -> (r: Vec<Vec<u8>>)
    ensures
        views(r@) == spec_lines(s@),
{
    let mut r: Vec<Vec<u8>> = Vec::new();
    let mut start: usize = 0;
    let mut i: usize = 0;
    proof {
        assert(s@.skip(0) =~= s@);
        assert(views(r@) + spec_lines(s@) =~~= spec_lines(s@));
    }
    while i < s.len()
        invariant
            0 <= start <= i <= s@.len(),
            forall|j: int| start <= j < i ==> s@[j] != 10,
            spec_lines(s@) == views(r@) + spec_lines(s@.skip(start as int)),
        decreases s@.len() - i,
    {
        if s[i] == 10 {
            let end = if i > start && s[i - 1] == 13 {
                i - 1
            } else {
                i
            };
            let line = subvec(s, start, end);
            proof {
                let t = s@.skip(start as int);
                lemma_find_from(t, 0, i - start, 10);
                assert(t.take(i - start) =~= s@.subrange(start as int, i as int));
                assert(strip_cr(t.take(i - start)) =~= line@);
                assert(t.skip(i - start + 1) =~= s@.skip(i + 1));
                assert(spec_lines(t) == seq![line@] + spec_lines(s@.skip(i + 1)));
            }
            let ghost old_r = r@;
            r.push(line);
            proof {
                assert(views(r@) =~~= views(old_r) + seq![line@]);
                assert(views(r@) + spec_lines(s@.skip(i + 1)) =~~= spec_lines(s@));
            }
            start = i + 1;
        }
        i = i + 1;
    }
    if start < s.len() {
        let line = subvec(s, start, s.len());
        proof {
            let t = s@.skip(start as int);
            lemma_find_from(t, 0, t.len() as int, 10);
            assert(t =~= line@);
            assert(spec_lines(t) == seq![line@]);
        }
        let ghost old_r = r@;
        r.push(line);
        proof {
            assert(views(r@) =~~= views(old_r) + seq![line@]);
            assert(views(r@) =~~= spec_lines(s@));
        }
    } else {
        proof {
            assert(s@.skip(start as int).len() == 0);
            assert(spec_lines(s@.skip(start as int)) == Seq::<Seq<u8>>::empty());
            assert(views(r@) =~~= spec_lines(s@));
        }
    }
    r
}

/// The comma-separated fields of `l`, untrimmed.
fn split_at_commas(l: &Vec<u8>) -> (r: Vec<Vec<u8>>)
    ensures
        views(r@) == spec_fields(l@),
{
    let mut r: Vec<Vec<u8>> = Vec::new();
    let mut start: usize = 0;
    let mut i: usize = 0;
    proof {
        assert(l@.skip(0) =~= l@);
        assert(views(r@) + spec_fields(l@) =~~= spec_fields(l@));
    }
    while i < l.len()
        invariant
            0 <= start <= i <= l@.len(),
            forall|j: int| start <= j < i ==> l@[j] != 44,
            spec_fields(l@) == views(r@) + spec_fields(l@.skip(start as int)),
        decreases l@.len() - i,
    {
        if l[i] == 44 {
            let field = subvec(l, start, i);
            proof {
                let t = l@.skip(start as int);
                lemma_find_from(t, 0, i - start, 44);
                assert(t.take(i - start) =~= field@);
                assert(t.skip(i - start + 1) =~= l@.skip(i + 1));
                assert(spec_fields(t) == seq![field@] + spec_fields(l@.skip(i + 1)));
            }
            let ghost old_r = r@;
            r.push(field);
            proof {
                assert(views(r@) =~~= views(old_r) + seq![field@]);
                assert(views(r@) + spec_fields(l@.skip(i + 1)) =~~= spec_fields(l@));
            }
            start = i + 1;
        }
        i = i + 1;
    }
    let field = subvec(l, start, l.len());
    proof {
        let t = l@.skip(start as int);
        lemma_find_from(t, 0, t.len() as int, 44);
        assert(t =~= field@);
        assert(spec_fields(t) == seq![field@]);
    }
    let ghost old_r = r@;
    r.push(field);
    proof {
        assert(views(r@) =~~= views(old_r) + seq![field@]);
        assert(views(r@) =~~= spec_fields(l@));
    }
    r
}

/// The comma-separated fields of `l`, each trimmed of surrounding
/// whitespace, as `fields_trimmed` describes.
pub fn line_fields(l: &Vec<u8>) -> (r: Vec<Vec<u8>>)
    ensures
        views(r@) == fields_trimmed(l@),
{
    let raw = split_at_commas(l);
    let mut r: Vec<Vec<u8>> = Vec::new();
    let mut i: usize = 0;
    while i < raw.len()
        invariant
            0 <= i <= raw@.len(),
            views(raw@) == spec_fields(l@),
            views(r@) =~= fields_trimmed(l@).take(i as int),
        decreases raw@.len() - i,
    {
        let ghost old_r = r@;
        r.push(trim(&raw[i]));
        proof {
            assert(views(r@) =~~= views(old_r).push(trimmed(raw@[i as int]@)));
            assert(views(raw@)[i as int] == raw@[i as int]@);
            assert(fields_trimmed(l@)[i as int] == trimmed(spec_fields(l@)[i as int]));
            assert(views(r@) =~= fields_trimmed(l@).take(i + 1));
        }
        i = i + 1;
    }
    assert(views(r@) =~= fields_trimmed(l@));
    r
}

pub open spec fn is_digit(b: u8) -> bool {
    48 <= b <= 57
}

/// The value of a sequence of decimal digit bytes, most significant first.
pub open spec fn digits_val(s: Seq<u8>) -> nat
    decreases s.len(),
{
    if s.len() == 0 {
        0
    } else {
        digits_val(s.drop_last()) * 10 + ((s.last() - 48) as nat)
    }
}

/// The digits of an unsigned decimal numeral: an optional leading plus sign
/// is not part of the value, exactly as `u32::from_str` reads it.
pub open spec fn int_body(s: Seq<u8>) -> Seq<u8> {
    if s.len() > 0 && s[0] == 43 {
        s.drop_first()
    } else {
        s
    }
}

/// Whether `s` is a well-formed unsigned decimal numeral: at least one
/// digit, nothing but digits after the optional sign.
pub open spec fn is_uint_str(s: Seq<u8>) -> bool {
    &&& int_body(s).len() > 0
    &&& forall|i: int| 0 <= i < int_body(s).len() ==> is_digit(int_body(s)[i])
}

/// The numeric value of the numeral `s`.
pub open spec fn uint_val(s: Seq<u8>) -> nat {
    digits_val(int_body(s))
}

proof fn lemma_digits_take_step(s: Seq<u8>, i: int)
    requires
        0 <= i < s.len(),
    ensures
        digits_val(s.take(i + 1)) == digits_val(s.take(i)) * 10 + ((s[i] - 48) as nat),
{
    assert(s.take(i + 1).drop_last() =~= s.take(i));
    assert(s.take(i + 1).last() == s[i]);
}

proof fn lemma_digits_prefix_le(s: Seq<u8>, i: int)
    requires
        0 <= i <= s.len(),
    ensures
        digits_val(s.take(i)) <= digits_val(s),
    decreases s.len() - i,
{
    if i == s.len() {
        assert(s.take(i) =~= s);
    } else {
        lemma_digits_take_step(s, i);
        lemma_digits_prefix_le(s, i + 1);
    }
}

/// The value of the numeral `s` when it is well formed and no larger than
/// `max`; `None` otherwise.
fn parse_uint(s: &Vec<u8>, max: u64) -> (r: Option<u64>)
    ensures
        match r {
            Some(v) => is_uint_str(s@) && uint_val(s@) <= max && v == uint_val(s@),
            None => !(is_uint_str(s@) && uint_val(s@) <= max),
        },
{
    let start: usize = if s.len() > 0 && s[0] == 43 {
        1
    } else {
        0
    };
    let ghost body = int_body(s@);
    proof {
        if start == 1 {
            assert(body =~= s@.skip(1));
        } else {
            assert(body =~= s@.skip(0));
        }
    }
    if start == s.len() {
        return None;
    }
    let mut acc: u64 = 0;
    let mut i: usize = start;
    proof {
        assert(body.take(0) =~= Seq::<u8>::empty());
    }
    while i < s.len()
        invariant
            start <= i <= s@.len(),
            body == int_body(s@),
            body =~= s@.skip(start as int),
            start < s@.len(),
            forall|k: int| 0 <= k < i - start ==> is_digit(body[k]),
            acc == digits_val(body.take(i - start)),
            acc <= max,
        decreases s@.len() - i,
    {
        let b = s[i];
        assert(body[i - start] == b);
        if !(48 <= b && b <= 57) {
            assert(!is_digit(int_body(s@)[i - start]));
            return None;
        }
        let d = b - 48;
        let wide: u128 = (acc as u128) * 10 + (d as u128);
        proof {
            lemma_digits_take_step(body, i - start);
        }
        if wide > max as u128 {
            proof {
                lemma_digits_prefix_le(body, i - start + 1);
            }
            return None;
        }
        acc = (wide as u64);
        i = i + 1;
    }
    proof {
        assert(body.take(body.len() as int) =~= body);
    }
    Some(acc)
}

/// The value of the numeral `s` when it fits a `u32`, as `u32::from_str`
/// would read it; `None` on any other text.
pub fn parse_u32(s: &Vec<u8>) -> (r: Option<u32>)
    ensures
        match r {
            Some(v) => is_uint_str(s@) && uint_val(s@) <= u32::MAX && v == uint_val(s@),
            None => !(is_uint_str(s@) && uint_val(s@) <= u32::MAX),
        },
{
    match parse_uint(s, 0xffff_ffffu64) {
        Some(v) => Some(v as u32),
        None => None,
    }
}

/// The value of the numeral `s` when it fits a `usize`, as `usize::from_str`
/// would read it; `None` on any other text.
pub fn parse_usize(s: &Vec<u8>) -> (r: Option<usize>)
    ensures
        match r {
            Some(v) => is_uint_str(s@) && uint_val(s@) <= usize::MAX && v == uint_val(s@),
            None => !(is_uint_str(s@) && uint_val(s@) <= usize::MAX),
        },
{
    match parse_uint(s, usize::MAX as u64) {
        Some(v) => Some(v as usize),
        None => None,
    }
}

} // verus!
