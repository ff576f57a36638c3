use vstd::prelude::*;

verus! {

/// A one-byte Unicode white space character: tab, line feed, vertical tab,
/// form feed, carriage return, space.
pub open spec fn is_ascii_space(b: u8) -> bool {
    b == 32 || b == 9 || b == 10 || b == 11 || b == 12 || b == 13
}

/// The UTF-8 form of a three-byte Unicode white space character: U+1680,
/// U+2000 to U+200A, U+2028, U+2029, U+202F, U+205F, U+3000.
pub open spec fn is_space3(a: u8, b: u8, c: u8) -> bool {
    (a == 0xE1 && b == 0x9A && c == 0x80)
        || (a == 0xE2 && b == 0x80 && ((0x80 <= c && c <= 0x8A) || c == 0xA8 || c == 0xA9 || c == 0xAF))
        || (a == 0xE2 && b == 0x81 && c == 0x9F)
        || (a == 0xE3 && b == 0x80 && c == 0x80)
}

/// The number of bytes of the Unicode white space character that ends `s`
/// (0 when `s` does not end in one). The two-byte ones are U+0085 and
/// U+00A0.
pub open spec fn space_tail(s: Seq<u8>) -> nat {
    let n = s.len();
    if n >= 1 && is_ascii_space(s[n - 1]) {
        1
    } else if n >= 2 && s[n - 2] == 0xC2 && (s[n - 1] == 0x85 || s[n - 1] == 0xA0) {
        2
    } else if n >= 3 && is_space3(s[n - 3], s[n - 2], s[n - 1]) {
        3
    } else {
        0
    }
}

/// `s` without the Unicode white space characters at its end, as
/// `str::trim_end` removes them from UTF-8 text.
pub open spec fn trim_end_white_space(s: Seq<u8>) -> Seq<u8>
    decreases s.len(),
{
    if space_tail(s) > 0 {
        trim_end_white_space(s.subrange(0, s.len() - space_tail(s)))
    } else {
        s
    }
}

/// `i` is the position of the first line feed of `s`.
pub open spec fn is_first_newline(s: Seq<u8>, i: int) -> bool {
    &&& 0 <= i < s.len()
    &&& s[i] == 10
    &&& forall|k: int| 0 <= k < i ==> s[k] != 10
}

/// The length of the white space character that ends `s[..end]`.
fn space_tail_at(s: &[u8], end: usize) -> (r: usize)
    requires
        end <= s@.len(),
    ensures
        r == space_tail(s@.subrange(0, end as int)),
{
    let ghost t = s@.subrange(0, end as int);
    if end >= 1 {
        let c = s[end - 1];
        if c == 32 || c == 9 || c == 10 || c == 11 || c == 12 || c == 13 {
            return 1;
        }
    }
    if end >= 2 {
        let b = s[end - 2];
        let c = s[end - 1];
        assert(t[t.len() - 2] == b && t[t.len() - 1] == c);
        if b == 0xC2 && (c == 0x85 || c == 0xA0) {
            return 2;
        }
    }
    if end >= 3 {
        let a = s[end - 3];
        let b = s[end - 2];
        let c = s[end - 1];
        assert(t[t.len() - 3] == a && t[t.len() - 2] == b && t[t.len() - 1] == c);
        if (a == 0xE1 && b == 0x9A && c == 0x80)
            || (a == 0xE2 && b == 0x80 && ((0x80 <= c && c <= 0x8A) || c == 0xA8 || c == 0xA9 || c == 0xAF))
            || (a == 0xE2 && b == 0x81 && c == 0x9F)
            || (a == 0xE3 && b == 0x80 && c == 0x80) {
            return 3;
        }
    }
    0
}

/// The version string of a version file: its first line, without the
/// white space at its end (a carriage return on Windows).
pub fn get_version(contents: &[u8]) -> (r: Vec<u8>)
    requires
        exists|i: int| 0 <= i < contents@.len() && contents@[i] == 10,
    ensures
        exists|i: int| is_first_newline(contents@, i) && r@ == trim_end_white_space(contents@.subrange(0, i)),
{
    let mut i: usize = 0;
    while contents[i] != 10
        invariant
            0 <= i < contents@.len(),
            forall|k: int| 0 <= k < i ==> contents@[k] != 10,
            exists|j: int| i <= j < contents@.len() && contents@[j] == 10,
        decreases contents@.len() - i,
    {
        i = i + 1;
    }
    let ghost line = contents@.subrange(0, i as int);
    let mut end: usize = i;
    let mut tail = space_tail_at(contents, end);
    while tail > 0
        invariant
            end <= i < contents@.len(),
            tail == space_tail(contents@.subrange(0, end as int)),
            tail <= end,
            trim_end_white_space(contents@.subrange(0, end as int)) == trim_end_white_space(line),
        decreases end,
    {
        assert(contents@.subrange(0, end as int).subrange(0, end - tail) =~= contents@.subrange(0, end - tail));
        end = end - tail;
        tail = space_tail_at(contents, end);
    }
    let mut r: Vec<u8> = Vec::new();
    let mut k: usize = 0;
    while k < end
        invariant
            k <= end <= i < contents@.len(),
            r@ =~= contents@.subrange(0, k as int),
        decreases end - k,
    {
        r.push(contents[k]);
        k = k + 1;
    }
    assert(is_first_newline(contents@, i as int));
    r
}

} // verus!
