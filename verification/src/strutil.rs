//! Verified character-level string operations: path segments, suffix tests,
//! and whitespace handling for the providers' payloads.

use vstd::prelude::*;

verus! {

/// Position `i` holds the last `/` of the sequence.
pub open spec fn last_slash_at(p: Seq<char>, i: int) -> bool {
    &&& 0 <= i < p.len()
    &&& p[i] == '/'
    &&& forall|j: int| i < j < p.len() ==> p[j] != '/'
}

/// The characters after the last `/`, or the whole sequence when it has none.
pub open spec fn last_segment(p: Seq<char>) -> Seq<char> {
    if exists|i: int| last_slash_at(p, i) {
        p.skip((choose|i: int| last_slash_at(p, i)) + 1)
    } else {
        p
    }
}

/// The characters after the last `/` of the given string.
pub fn last_segment_exec(p: &str) -> (r: String)
    ensures
        r@ == last_segment(p@),
{
    let n = p.unicode_len();
    let mut i: usize = n;
    while i > 0
        invariant
            i <= n,
            n == p@.len(),
            forall|j: int| i <= j < n ==> p@[j] != '/',
        decreases i,
    {
        let c = p.get_char(i - 1);
        if c == '/' {
            proof {
                assert(last_slash_at(p@, i - 1));
                let k = choose|k: int| last_slash_at(p@, k);
                assert(last_slash_at(p@, k));
                if k < i - 1 {
                    assert(p@[i - 1] == '/');
                    assert(false);
                } else if k > i - 1 {
                    assert(p@[k] != '/');
                    assert(false);
                }
            }
            let s = p.substring_char(i, n);
            proof {
                assert(p@.subrange(i as int, n as int) =~= p@.skip(i as int));
            }
            return s.to_owned();
        }
        i = i - 1;
    }
    proof {
        if exists|k: int| last_slash_at(p@, k) {
            let k = choose|k: int| last_slash_at(p@, k);
            assert(p@[k] != '/');
            assert(false);
        }
    }
    p.to_owned()
}

/// The sequence ends with the given suffix.
pub open spec fn ends_with(s: Seq<char>, t: Seq<char>) -> bool {
    s.len() >= t.len() && s.skip(s.len() - t.len()) == t
}

/// Whether the string ends with the given suffix.
pub fn ends_with_exec(s: &str, t: &str) -> (r: bool)
    ensures
        r == ends_with(s@, t@),
{
    let slen = s.unicode_len();
    let tlen = t.unicode_len();
    if slen < tlen {
        return false;
    }
    let off = slen - tlen;
    let mut i: usize = 0;
    while i < tlen
        invariant
            i <= tlen,
            slen == s@.len(),
            tlen == t@.len(),
            off == slen - tlen,
            forall|j: int| 0 <= j < i ==> s@[off + j] == t@[j],
        decreases tlen - i,
    {
        let cs = s.get_char(off + i);
        let ct = t.get_char(i);
        if cs != ct {
            proof {
                assert(s@.skip(off as int)[i as int] != t@[i as int]);
            }
            return false;
        }
        i = i + 1;
    }
    proof {
        assert(s@.skip(off as int) =~= t@);
    }
    true
}

/// The decimal digit character for a value below ten.
pub open spec fn dec_digit(d: int) -> char {
    if d == 0 {
        '0'
    } else if d == 1 {
        '1'
    } else if d == 2 {
        '2'
    } else if d == 3 {
        '3'
    } else if d == 4 {
        '4'
    } else if d == 5 {
        '5'
    } else if d == 6 {
        '6'
    } else if d == 7 {
        '7'
    } else if d == 8 {
        '8'
    } else {
        '9'
    }
}

/// The decimal writing of a number, most significant digit first.
pub open spec fn dec_str(n: int) -> Seq<char>
    decreases n,
{
    if n < 10 {
        seq![dec_digit(n)]
    } else {
        dec_str(n / 10).push(dec_digit(n % 10))
    }
}

/// The one-character string of a decimal digit.
fn digit_str(d: u64) -> (r: &'static str)
    requires
        d < 10,
    ensures
        r@ == seq![dec_digit(d as int)],
{
    let r: &'static str = if d == 0 {
        "0"
    } else if d == 1 {
        "1"
    } else if d == 2 {
        "2"
    } else if d == 3 {
        "3"
    } else if d == 4 {
        "4"
    } else if d == 5 {
        "5"
    } else if d == 6 {
        "6"
    } else if d == 7 {
        "7"
    } else if d == 8 {
        "8"
    } else {
        "9"
    };
    proof {
        reveal_strlit("0");
        reveal_strlit("1");
        reveal_strlit("2");
        reveal_strlit("3");
        reveal_strlit("4");
        reveal_strlit("5");
        reveal_strlit("6");
        reveal_strlit("7");
        reveal_strlit("8");
        reveal_strlit("9");
        assert(r@ =~= seq![dec_digit(d as int)]);
    }
    r
}

/// The decimal writing of a number.
pub fn u64_to_string(n: u64) -> (r: String)
    ensures
        r@ == dec_str(n as int),
    decreases n,
{
    if n < 10 {
        digit_str(n).to_owned()
    } else {
        let mut out = u64_to_string(n / 10);
        out.append(digit_str(n % 10));
        proof {
            assert(out@ =~= dec_str(n as int));
        }
        out
    }
}

/// The character is whitespace: the code points carrying the Unicode
/// White_Space property.
pub open spec fn is_space(c: char) -> bool {
    ||| c as u32 == 0x09
    ||| c as u32 == 0x0a
    ||| c as u32 == 0x0b
    ||| c as u32 == 0x0c
    ||| c as u32 == 0x0d
    ||| c as u32 == 0x20
    ||| c as u32 == 0x85
    ||| c as u32 == 0xa0
    ||| c as u32 == 0x1680
    ||| (0x2000 <= c as u32 && c as u32 <= 0x200a)
    ||| c as u32 == 0x2028
    ||| c as u32 == 0x2029
    ||| c as u32 == 0x202f
    ||| c as u32 == 0x205f
    ||| c as u32 == 0x3000
}

/// Whether the character is whitespace.
pub fn is_space_exec(c: char) -> (r: bool)
    ensures
        r == is_space(c),
{
    let u = c as u32;
    u == 0x09 || u == 0x0a || u == 0x0b || u == 0x0c || u == 0x0d || u == 0x20 || u == 0x85
        || u == 0xa0 || u == 0x1680 || (0x2000 <= u && u <= 0x200a) || u == 0x2028 || u == 0x2029
        || u == 0x202f || u == 0x205f || u == 0x3000
}

/// The sequence with every whitespace character removed.
pub open spec fn without_spaces(s: Seq<char>) -> Seq<char> {
    s.filter(|c: char| !is_space(c))
}

/// The string with every whitespace character removed, as joining the pieces
/// of a whitespace split leaves it.
pub fn strip_spaces(s: &str) -> (r: String)
    ensures
        r@ == without_spaces(s@),
{
    let n = s.unicode_len();
    let mut out = String::new();
    let mut i: usize = 0;
    while i < n
        invariant
            i <= n,
            n == s@.len(),
            out@ == s@.subrange(0, i as int).filter(|c: char| !is_space(c)),
        decreases n - i,
    {
        let ghost part = s@.subrange(0, i as int);
        let c = s.get_char(i);
        if !is_space_exec(c) {
            let piece = s.substring_char(i, i + 1);
            proof {
                assert(piece@ =~= Seq::<char>::empty().push(c));
            }
            out.append(piece);
        }
        proof {
            assert(s@.subrange(0, i + 1) =~= part.push(c));
            crate::cache::lemma_filter_push(part, |x: char| !is_space(x), c);
            if !is_space(c) {
                assert(out@ =~= part.filter(|x: char| !is_space(x)).push(c));
            }
        }
        i = i + 1;
    }
    proof {
        assert(s@.subrange(0, n as int) =~= s@);
    }
    out
}

/// The sequence short of its leading whitespace.
pub open spec fn trim_start(s: Seq<char>) -> Seq<char>
    decreases s.len(),
{
    if s.len() > 0 && is_space(s[0]) {
        trim_start(s.drop_first())
    } else {
        s
    }
}

/// The sequence short of its trailing whitespace.
pub open spec fn trim_end(s: Seq<char>) -> Seq<char>
    decreases s.len(),
{
    if s.len() > 0 && is_space(s.last()) {
        trim_end(s.drop_last())
    } else {
        s
    }
}

/// The sequence short of its leading and trailing whitespace.
pub open spec fn trimmed(s: Seq<char>) -> Seq<char> {
    trim_end(trim_start(s))
}

/// Leading whitespace is skipped whole.
proof fn lemma_trim_start_skip(s: Seq<char>, a: int)
    requires
        0 <= a <= s.len(),
        forall|j: int| 0 <= j < a ==> is_space(#[trigger] s[j]),
        a < s.len() ==> !is_space(s[a]),
    ensures
        trim_start(s) == s.skip(a),
    decreases a,
{
    if a == 0 {
        assert(s.skip(0) =~= s);
    } else {
        let d = s.drop_first();
        assert(forall|j: int| 0 <= j < a - 1 ==> is_space(#[trigger] d[j]));
        lemma_trim_start_skip(d, a - 1);
        assert(d.skip(a - 1) =~= s.skip(a));
    }
}

/// Trailing whitespace is dropped whole.
proof fn lemma_trim_end_take(s: Seq<char>, b: int)
    requires
        0 <= b <= s.len(),
        forall|j: int| b <= j < s.len() ==> is_space(#[trigger] s[j]),
        b > 0 ==> !is_space(s[b - 1]),
    ensures
        trim_end(s) == s.take(b),
    decreases s.len(),
{
    if s.len() > b {
        let d = s.drop_last();
        assert(forall|j: int| b <= j < d.len() ==> is_space(#[trigger] d[j]));
        lemma_trim_end_take(d, b);
        assert(d.take(b) =~= s.take(b));
    } else {
        assert(s.take(b) =~= s);
    }
}

/// The position of the first character that is no whitespace, or the length.
fn first_non_space(s: &str) -> (a: usize)
    ensures
        a <= s@.len(),
        forall|j: int| 0 <= j < a ==> is_space(#[trigger] s@[j]),
        a < s@.len() ==> !is_space(s@[a as int]),
{
    let n = s.unicode_len();
    let mut a: usize = 0;
    while a < n
        invariant
            a <= n,
            n == s@.len(),
            forall|j: int| 0 <= j < a ==> is_space(#[trigger] s@[j]),
        decreases n - a,
    {
        if !is_space_exec(s.get_char(a)) {
            return a;
        }
        a = a + 1;
    }
    n
}

/// The position after the last character that is no whitespace, scanning no
/// further left than past `a`, a position known to hold none.
fn after_last_non_space(s: &str, a: usize) -> (b: usize)
    requires
        a < s@.len(),
        !is_space(s@[a as int]),
    ensures
        a < b <= s@.len(),
        forall|j: int| b <= j < s@.len() ==> is_space(#[trigger] s@[j]),
        !is_space(s@[b - 1]),
{
    let n = s.unicode_len();
    let mut b: usize = n;
    while b > a + 1
        invariant
            a < b <= n,
            n == s@.len(),
            forall|j: int| b <= j < n ==> is_space(#[trigger] s@[j]),
        decreases b,
    {
        if !is_space_exec(s.get_char(b - 1)) {
            return b;
        }
        b = b - 1;
    }
    b
}

/// The string short of its leading and trailing whitespace.
pub fn trim_spaces(s: &str) -> (r: String)
    ensures
        r@ == trimmed(s@),
{
    let n = s.unicode_len();
    let a = first_non_space(s);
    if a == n {
        proof {
            lemma_trim_start_skip(s@, n as int);
            assert(s@.skip(n as int) =~= Seq::<char>::empty());
        }
        return String::new();
    }
    let b = after_last_non_space(s, a);
    proof {
        lemma_trim_start_skip(s@, a as int);
        let tail = s@.skip(a as int);
        assert(forall|j: int| b - a <= j < tail.len() ==> is_space(#[trigger] tail[j]));
        lemma_trim_end_take(tail, b - a);
        assert(s@.subrange(a as int, b as int) =~= tail.take(b - a));
    }
    let t = s.substring_char(a, b);
    t.to_owned()
}

} // verus!
