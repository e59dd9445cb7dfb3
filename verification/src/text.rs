//! Character-level text handling shared by the calculator: whitespace,
//! splitting into words, trimming, and decimal integers.
use vstd::prelude::*;

verus! {

/// Unicode `White_Space`: the characters that separate words and that
/// trimming removes.
pub open spec fn is_ws(c: char) -> bool {
    ||| ('\u{9}' <= c && c <= '\u{d}')
    ||| c == ' '
    ||| c == '\u{85}'
    ||| c == '\u{a0}'
    ||| c == '\u{1680}'
    ||| ('\u{2000}' <= c && c <= '\u{200a}')
    ||| c == '\u{2028}'
    ||| c == '\u{2029}'
    ||| c == '\u{202f}'
    ||| c == '\u{205f}'
    ||| c == '\u{3000}'
}

pub fn is_whitespace(c: char) -> (b: bool)
    ensures
        b == is_ws(c),
{
    ('\u{9}' <= c && c <= '\u{d}') || c == ' ' || c == '\u{85}' || c == '\u{a0}' || c
        == '\u{1680}' || ('\u{2000}' <= c && c <= '\u{200a}') || c == '\u{2028}' || c
        == '\u{2029}' || c == '\u{202f}' || c == '\u{205f}' || c == '\u{3000}'
}

/// The characters of `s`, one by one.
pub fn chars_of(s: &str) -> (v: Vec<char>)
    ensures
        v@ == s@,
{
    broadcast use vstd::string::group_string_axioms;

    let mut v: Vec<char> = Vec::new();
    for c in it: s.chars()
        invariant
            it.seq() == s@,
            v@ == s@.take(it.index() as int),
    {
        v.push(c);
        assert(v@ =~= s@.take(it.index() + 1));
    }
    assert(v@ =~= s@);
    v
}

/// Number of characters before the first whitespace of `s`.
pub open spec fn word_len(s: Seq<char>) -> nat
    decreases s.len(),
{
    if s.len() == 0 || is_ws(s[0]) {
        0
    } else {
        1 + word_len(s.drop_first())
    }
}

/// The maximal runs of non-whitespace characters of `s`, in order: what
/// `str::split_whitespace` yields.
pub open spec fn words(s: Seq<char>) -> Seq<Seq<char>>
    decreases s.len(),
{
    if s.len() == 0 {
        Seq::empty()
    } else if is_ws(s[0]) {
        words(s.drop_first())
    } else {
        let n = word_len(s);
        if 0 < n <= s.len() {
            seq![s.take(n as int)] + words(s.skip(n as int))
        } else {
            Seq::empty()
        }
    }
}

/// A run of non-whitespace characters ended by whitespace or by the end of
/// the text has exactly that run's length as its word length.
pub proof fn lemma_word_len_exact(s: Seq<char>, n: nat)
    requires
        n <= s.len(),
        forall|k: int| 0 <= k < n ==> !is_ws(#[trigger] s[k]),
        n < s.len() ==> is_ws(s[n as int]),
    ensures
        word_len(s) == n,
    decreases n,
{
    if n > 0 {
        let t = s.drop_first();
        assert forall|k: int| 0 <= k < n - 1 implies !is_ws(#[trigger] t[k]) by {
            assert(t[k] == s[k + 1]);
        }
        if n - 1 < t.len() {
            assert(t[n - 1] == s[n as int]);
        }
        lemma_word_len_exact(t, (n - 1) as nat);
        assert(!is_ws(s[0]));
    }
}

/// The character sequences held by a vector of words.
pub open spec fn views(v: Seq<Vec<char>>) -> Seq<Seq<char>> {
    v.map_values(|w: Vec<char>| w@)
}

/// Splits `s` into its words, as `str::split_whitespace` does.
pub fn split_words(s: &Vec<char>) -> (out: Vec<Vec<char>>)
    ensures
        views(out@) == words(s@),
{
    let n = s.len();
    let mut out: Vec<Vec<char>> = Vec::new();
    let mut i: usize = 0;
    assert(s@.skip(0) =~= s@);
    while i < n
        invariant
            n == s@.len(),
            i <= n,
            words(s@) == views(out@) + words(s@.skip(i as int)),
        decreases n - i,
    {
        if is_whitespace(s[i]) {
            proof {
                let t = s@.skip(i as int);
                assert(t[0] == s@[i as int]);
                assert(t.drop_first() =~= s@.skip(i + 1));
            }
            i = i + 1;
        } else {
            let start = i;
            let mut w: Vec<char> = Vec::new();
            while i < n && !is_whitespace(s[i])
                invariant
                    n == s@.len(),
                    start <= i <= n,
                    w@ == s@.subrange(start as int, i as int),
                    forall|k: int| start <= k < i ==> !is_ws(#[trigger] s@[k]),
                decreases n - i,
            {
                w.push(s[i]);
                i = i + 1;
                assert(w@ =~= s@.subrange(start as int, i as int));
            }
            proof {
                let t = s@.skip(start as int);
                let len = (i - start) as nat;
                assert forall|k: int| 0 <= k < len implies !is_ws(#[trigger] t[k]) by {
                    assert(t[k] == s@[start + k]);
                }
                if len < t.len() {
                    assert(t[len as int] == s@[i as int]);
                }
                lemma_word_len_exact(t, len);
                assert(t[0] == s@[start as int]);
                assert(t.take(len as int) =~= w@);
                assert(t.skip(len as int) =~= s@.skip(i as int));
                                assert(words(t) == seq![w@] + words(s@.skip(i as int)));
            }
            let ghost before = out@;
            out.push(w);
            proof {
                assert(views(out@) =~= views(before).push(w@));
                assert(views(before) + words(s@.skip(start as int)) =~= views(out@) + words(
                    s@.skip(i as int),
                ));
            }
        }
    }
    assert(s@.skip(n as int) =~= Seq::<char>::empty());
    assert(views(out@) + Seq::<Seq<char>>::empty() =~= views(out@));
    out
}

pub open spec fn is_digit(c: char) -> bool {
    '0' <= c && c <= '9'
}

pub open spec fn all_digits(ds: Seq<char>) -> bool {
    forall|k: int| 0 <= k < ds.len() ==> is_digit(#[trigger] ds[k])
}

/// The value of a string of decimal digits.
pub open spec fn digits_value(ds: Seq<char>) -> nat
    decreases ds.len(),
{
    if ds.len() == 0 {
        0
    } else {
        digits_value(ds.drop_last()) * 10 + ((ds.last() as int) - ('0' as int)) as nat
    }
}

/// Whether `tok` starts with a sign character.
pub open spec fn has_sign(tok: Seq<char>) -> bool {
    tok.len() > 0 && (tok[0] == '-' || tok[0] == '+')
}

/// The integer written in `tok` in the grammar of `str::parse` for signed
/// integers: an optional `+` or `-`, then one or more ASCII digits, and
/// nothing else.
pub open spec fn decimal(tok: Seq<char>) -> Option<int> {
    let ds = if has_sign(tok) {
        tok.drop_first()
    } else {
        tok
    };
    if ds.len() == 0 || !all_digits(ds) {
        None
    } else if has_sign(tok) && tok[0] == '-' {
        Some(-(digits_value(ds) as int))
    } else {
        Some(digits_value(ds) as int)
    }
}

/// The integer written in `tok`, where it lies in `lo..=hi`.
pub open spec fn decimal_in(tok: Seq<char>, lo: int, hi: int) -> Option<int> {
    match decimal(tok) {
        Some(v) => if lo <= v <= hi {
            Some(v)
        } else {
            None
        },
        None => None,
    }
}

/// Reads the integer written in `tok`; `None` where `tok` is no integer or
/// its value lies outside `lo..=hi`.
pub fn parse_decimal(tok: &[char], lo: i64, hi: i64) -> (r: Option<i64>)
    ensures
        match r {
            Some(v) => decimal_in(tok@, lo as int, hi as int) == Some(v as int),
            None => decimal_in(tok@, lo as int, hi as int) is None,
        },
{
    let n = tok.len();
    let signed = n > 0 && (tok[0] == '-' || tok[0] == '+');
    let negative = signed && tok[0] == '-';
    let start: usize = if signed {
        1
    } else {
        0
    };
    let ghost ds = if signed {
        tok@.drop_first()
    } else {
        tok@
    };
    assert(ds =~= tok@.subrange(start as int, n as int));
    if start == n {
        return None;
    }
    let cap: u128 = 0x8000_0000_0000_0001;
    let mut m: u128 = 0;
    let mut i: usize = start;
    while i < n
        invariant
            start <= i <= n,
            n == tok@.len(),
            signed == has_sign(tok@),
            start == (if signed {
                1usize
            } else {
                0usize
            }),
            negative == (signed && tok@[0] == '-'),
            m <= cap,
            cap == 0x8000_0000_0000_0001u128,
            ds =~= tok@.subrange(start as int, n as int),
            all_digits(tok@.subrange(start as int, i as int)),
            m == if digits_value(tok@.subrange(start as int, i as int)) < cap {
                digits_value(tok@.subrange(start as int, i as int)) as int
            } else {
                cap as int
            },
        decreases n - i,
    {
        let c = tok[i];
        if !('0' <= c && c <= '9') {
            proof {
                assert(ds[i - start] == c);
            }
            return None;
        }
        let d = (c as u32 - '0' as u32) as u128;
        proof {
            let pre = tok@.subrange(start as int, i as int);
            let nxt = tok@.subrange(start as int, i + 1);
            assert(nxt.drop_last() =~= pre);
            assert(nxt.last() == c);
            assert(digits_value(nxt) == digits_value(pre) * 10 + d);
            assert forall|k: int| 0 <= k < nxt.len() implies is_digit(#[trigger] nxt[k]) by {
                if k < pre.len() {
                    assert(nxt[k] == pre[k]);
                }
            }
        }
        let next = m * 10 + d;
        m = if next > cap {
            cap
        } else {
            next
        };
        i = i + 1;
    }
    assert(tok@.subrange(start as int, n as int) =~= ds);
    let v: i128 = if negative {
        -(m as i128)
    } else {
        m as i128
    };
    if (lo as i128) <= v && v <= (hi as i128) {
        Some(v as i64)
    } else {
        None
    }
}

/// Number of whitespace characters at the start of `s`.
pub open spec fn leading_ws(s: Seq<char>) -> nat
    decreases s.len(),
{
    if s.len() > 0 && is_ws(s[0]) {
        1 + leading_ws(s.drop_first())
    } else {
        0
    }
}

/// Number of whitespace characters at the end of `s`.
pub open spec fn trailing_ws(s: Seq<char>) -> nat
    decreases s.len(),
{
    if s.len() > 0 && is_ws(s.last()) {
        1 + trailing_ws(s.drop_last())
    } else {
        0
    }
}

/// `s` without its leading and trailing whitespace, as `str::trim` gives it.
pub open spec fn trimmed(s: Seq<char>) -> Seq<char> {
    let t = s.skip(leading_ws(s) as int);
    t.take(t.len() - trailing_ws(t))
}

pub proof fn lemma_leading_ws_exact(s: Seq<char>, n: nat)
    requires
        n <= s.len(),
        forall|k: int| 0 <= k < n ==> is_ws(#[trigger] s[k]),
        n < s.len() ==> !is_ws(s[n as int]),
    ensures
        leading_ws(s) == n,
    decreases n,
{
    if n > 0 {
        let t = s.drop_first();
        assert forall|k: int| 0 <= k < n - 1 implies is_ws(#[trigger] t[k]) by {
            assert(t[k] == s[k + 1]);
        }
        if n - 1 < t.len() {
            assert(t[n - 1] == s[n as int]);
        }
        lemma_leading_ws_exact(t, (n - 1) as nat);
        assert(is_ws(s[0]));
    }
}

pub proof fn lemma_trailing_ws_exact(s: Seq<char>, n: nat)
    requires
        n <= s.len(),
        forall|k: int| s.len() - n <= k < s.len() ==> is_ws(#[trigger] s[k]),
        n < s.len() ==> !is_ws(s[s.len() - n - 1]),
    ensures
        trailing_ws(s) == n,
    decreases n,
{
    if n > 0 {
        let t = s.drop_last();
        assert forall|k: int| t.len() - (n - 1) <= k < t.len() implies is_ws(#[trigger] t[k]) by {
            assert(t[k] == s[k]);
        }
        if n - 1 < t.len() {
            assert(t[t.len() - (n - 1) - 1] == s[s.len() - n - 1]);
        }
        lemma_trailing_ws_exact(t, (n - 1) as nat);
        assert(is_ws(s[s.len() - 1]));
    }
}

/// The bounds, within `from..to`, of `s[from..to]` once trimmed.
pub fn trim_range(s: &[char], from: usize, to: usize) -> (r: (usize, usize))
    requires
        from <= to <= s@.len(),
    ensures
        from <= r.0 <= r.1 <= to,
        s@.subrange(r.0 as int, r.1 as int) == trimmed(s@.subrange(from as int, to as int)),
{
    let ghost whole = s@.subrange(from as int, to as int);
    let mut a = from;
    while a < to && is_whitespace(s[a])
        invariant
            from <= a <= to <= s@.len(),
            forall|k: int| from <= k < a ==> is_ws(#[trigger] s@[k]),
        decreases to - a,
    {
        a = a + 1;
    }
    proof {
        assert forall|k: int| 0 <= k < a - from implies is_ws(#[trigger] whole[k]) by {
            assert(whole[k] == s@[from + k]);
        }
        if a < to {
            assert(whole[a - from] == s@[a as int]);
        }
        lemma_leading_ws_exact(whole, (a - from) as nat);
    }
    let ghost rest = whole.skip((a - from) as int);
    assert(rest =~= s@.subrange(a as int, to as int));
    let mut b = to;
    while b > a && is_whitespace(s[b - 1])
        invariant
            from <= a <= b <= to <= s@.len(),
            forall|k: int| b <= k < to ==> is_ws(#[trigger] s@[k]),
        decreases b - a,
    {
        b = b - 1;
    }
    proof {
        assert forall|k: int| rest.len() - (to - b) <= k < rest.len() implies is_ws(
            #[trigger] rest[k],
        ) by {
            assert(rest[k] == s@[a + k]);
        }
        if to - b < rest.len() {
            assert(rest[rest.len() - (to - b) - 1] == s@[b - 1]);
        }
        lemma_trailing_ws_exact(rest, (to - b) as nat);
        assert(rest.take(rest.len() - (to - b)) =~= s@.subrange(a as int, b as int));
    }
    (a, b)
}

/// Position of the first `c` in `s`, or `s.len()` where there is none.
pub open spec fn index_of(s: Seq<char>, c: char) -> nat
    decreases s.len(),
{
    if s.len() == 0 || s[0] == c {
        0
    } else {
        1 + index_of(s.drop_first(), c)
    }
}

pub proof fn lemma_index_of_exact(s: Seq<char>, c: char, n: nat)
    requires
        n <= s.len(),
        forall|k: int| 0 <= k < n ==> #[trigger] s[k] != c,
        n < s.len() ==> s[n as int] == c,
    ensures
        index_of(s, c) == n,
    decreases n,
{
    if n > 0 {
        let t = s.drop_first();
        assert forall|k: int| 0 <= k < n - 1 implies #[trigger] t[k] != c by {
            assert(t[k] == s[k + 1]);
        }
        if n - 1 < t.len() {
            assert(t[n - 1] == s[n as int]);
        }
        lemma_index_of_exact(t, c, (n - 1) as nat);
        assert(s[0] != c);
    }
}

/// Position of the first `c` in `s`, or `s.len()` where there is none.
pub fn find_char(s: &[char], c: char) -> (r: usize)
    ensures
        r == index_of(s@, c),
{
    let mut i: usize = 0;
    while i < s.len() && s[i] != c
        invariant
            i <= s@.len(),
            forall|k: int| 0 <= k < i ==> #[trigger] s@[k] != c,
        decreases s@.len() - i,
    {
        i = i + 1;
    }
    proof {
        lemma_index_of_exact(s@, c, i as nat);
    }
    i
}

/// `s` without its leading and trailing whitespace.
pub fn trim(s: &str) -> (r: &str)
    ensures
        r@ == trimmed(s@),
{
    let cs = chars_of(s);
    let (a, b) = trim_range(cs.as_slice(), 0, cs.len());
    assert(cs@.subrange(0, cs@.len() as int) =~= s@);
    s.substring_char(a, b)
}

} // verus!
