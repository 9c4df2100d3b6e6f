//! Plain-text helpers: the whitespace predicate, trimming, splitting a line
//! into whitespace-separated words, and reading an unsigned number.

use vstd::prelude::*;

verus! {

/// A character with the Unicode `White_Space` property, the set that both
/// trimming and word splitting go by.
pub open spec fn is_space(c: char) -> bool {
    let u = c as u32;
    u == 0x09 || u == 0x0a || u == 0x0b || u == 0x0c || u == 0x0d || u == 0x20 || u == 0x85
        || u == 0xa0 || u == 0x1680 || (0x2000 <= u && u <= 0x200a) || u == 0x2028 || u == 0x2029
        || u == 0x202f || u == 0x205f || u == 0x3000
}

/// Decides `is_space`.
pub fn space(c: char) -> (r: bool)
    ensures
        r == is_space(c),
{
    let u = c as u32;
    u == 0x09 || u == 0x0a || u == 0x0b || u == 0x0c || u == 0x0d || u == 0x20 || u == 0x85
        || u == 0xa0 || u == 0x1680 || (0x2000 <= u && u <= 0x200a) || u == 0x2028 || u == 0x2029
        || u == 0x202f || u == 0x205f || u == 0x3000
}

/// `s` without its leading and trailing whitespace.
pub open spec fn trim_spec(s: Seq<char>) -> Seq<char>
    decreases s.len(),
{
    if s.len() == 0 {
        s
    } else if is_space(s[0]) {
        trim_spec(s.drop_first())
    } else if is_space(s.last()) {
        trim_spec(s.drop_last())
    } else {
        s
    }
}

proof fn lemma_trim_all_space(s: Seq<char>)
    requires
        forall|i: int| 0 <= i < s.len() ==> is_space(s[i]),
    ensures
        trim_spec(s).len() == 0,
    decreases s.len(),
{
    if s.len() > 0 {
        assert forall|i: int| 0 <= i < s.drop_first().len() implies is_space(
            s.drop_first()[i],
        ) by {
            assert(s.drop_first()[i] == s[i + 1]);
        }
        lemma_trim_all_space(s.drop_first());
    }
}

proof fn lemma_trim_subrange(s: Seq<char>, a: int, b: int)
    requires
        0 <= a <= b < s.len(),
        forall|i: int| 0 <= i < a ==> is_space(s[i]),
        forall|i: int| b < i < s.len() ==> is_space(s[i]),
        !is_space(s[a]),
        !is_space(s[b]),
    ensures
        trim_spec(s) == s.subrange(a, b + 1),
    decreases s.len(),
{
    if a > 0 {
        let t = s.drop_first();
        assert forall|i: int| 0 <= i < a - 1 implies is_space(t[i]) by {
            assert(t[i] == s[i + 1]);
        }
        assert forall|i: int| b - 1 < i < t.len() implies is_space(t[i]) by {
            assert(t[i] == s[i + 1]);
        }
        assert(t[a - 1] == s[a]);
        assert(t[b - 1] == s[b]);
        lemma_trim_subrange(t, a - 1, b - 1);
        assert(t.subrange(a - 1, b) =~= s.subrange(a, b + 1));
    } else if b < s.len() - 1 {
        assert(is_space(s.last()));
        let t = s.drop_last();
        assert forall|i: int| b < i < t.len() implies is_space(t[i]) by {
            assert(t[i] == s[i]);
        }
        lemma_trim_subrange(t, 0, b);
        assert(t.subrange(0, b + 1) =~= s.subrange(0, b + 1));
    } else {
        assert(!is_space(s[0]));
        assert(s.subrange(0, b + 1) =~= s);
    }
}

/// Removes leading and trailing whitespace, as `str::trim` does.
pub fn trim(s: &str) -> (r: String)
    ensures
        r@ == trim_spec(s@),
{
    let len: usize = s.unicode_len();
    let mut a: usize = 0;
    while a < len && space(s.get_char(a))
        invariant
            len == s@.len(),
            a <= len,
            forall|i: int| 0 <= i < a ==> is_space(s@[i]),
        decreases len - a,
    {
        a = a + 1;
    }
    if a == len {
        proof {
            lemma_trim_all_space(s@);
            assert(trim_spec(s@) =~= Seq::<char>::empty());
        }
        return String::new();
    }
    let mut b: usize = len - 1;
    while space(s.get_char(b))
        invariant
            len == s@.len(),
            a <= b < len,
            !is_space(s@[a as int]),
            forall|i: int| b < i < len ==> is_space(s@[i]),
        decreases b,
    {
        b = b - 1;
    }
    let r = s.substring_char(a, b + 1);
    proof {
        lemma_trim_subrange(s@, a as int, b as int);
    }
    r.to_owned()
}

/// The words that remain of `s` once it is cut at whitespace, with `cur` the
/// word in progress.
pub open spec fn split_ws(s: Seq<char>, cur: Seq<char>) -> Seq<Seq<char>>
    decreases s.len(),
{
    if s.len() == 0 {
        if cur.len() == 0 {
            Seq::empty()
        } else {
            seq![cur]
        }
    } else if is_space(s[0]) {
        if cur.len() == 0 {
            split_ws(s.drop_first(), Seq::empty())
        } else {
            seq![cur] + split_ws(s.drop_first(), Seq::empty())
        }
    } else {
        split_ws(s.drop_first(), cur.push(s[0]))
    }
}

/// The whitespace-separated words of `s`, in order: maximal runs of
/// non-whitespace characters, as `str::split_whitespace` yields them.
pub open spec fn words_of(s: Seq<char>) -> Seq<Seq<char>> {
    split_ws(s, Seq::empty())
}

/// Splits `s` into its whitespace-separated words.
pub fn split_words(s: &str) -> (r: Vec<String>)
    ensures
        r@.map_values(|w: String| w@) == words_of(s@),
{
    let len: usize = s.unicode_len();
    let mut out: Vec<String> = Vec::new();
    let mut i: usize = 0;
    let mut start: usize = 0;
    let mut in_word: bool = false;
    proof {
        assert(s@.skip(0) =~= s@);
    }
    while i < len
        invariant
            len == s@.len(),
            i <= len,
            in_word ==> start < i,
            out@.map_values(|w: String| w@) + split_ws(
                s@.skip(i as int),
                if in_word {
                    s@.subrange(start as int, i as int)
                } else {
                    Seq::<char>::empty()
                },
            ) == words_of(s@),
        decreases len - i,
    {
        let ghost cur: Seq<char> = if in_word {
            s@.subrange(start as int, i as int)
        } else {
            Seq::<char>::empty()
        };
        proof {
            assert(s@.skip(i as int)[0] == s@[i as int]);
            assert(s@.skip(i as int).drop_first() =~= s@.skip(i + 1));
        }
        let c = s.get_char(i);
        if space(c) {
            if in_word {
                let w = s.substring_char(start, i);
                let ws = w.to_owned();
                proof {
                    assert(split_ws(s@.skip(i as int), cur) =~= seq![cur] + split_ws(
                        s@.skip(i + 1),
                        Seq::<char>::empty(),
                    ));
                    assert(out@.push(ws).map_values(|w: String| w@) =~= out@.map_values(
                        |w: String| w@,
                    ).push(ws@));
                }
                out.push(ws);
                in_word = false;
            }
        } else {
            if !in_word {
                start = i;
                in_word = true;
            }
            proof {
                assert(s@.subrange(start as int, i + 1) =~= cur.push(s@[i as int]));
            }
        }
        i = i + 1;
    }
    proof {
        assert(s@.skip(len as int) =~= Seq::<char>::empty());
    }
    if in_word {
        let w = s.substring_char(start, len);
        let ws = w.to_owned();
        proof {
            assert(out@.push(ws).map_values(|w: String| w@) =~= out@.map_values(
                |w: String| w@,
            ).push(ws@));
            assert(split_ws(Seq::<char>::empty(), s@.subrange(start as int, len as int))
                =~= seq![s@.subrange(start as int, len as int)]);
        }
        out.push(ws);
    }
    out
}

/// An ASCII decimal digit.
pub open spec fn is_digit(c: char) -> bool {
    0x30 <= c as u32 && c as u32 <= 0x39
}

/// The numeric value of one digit.
pub open spec fn digit_val(c: char) -> int {
    c as u32 - 0x30
}

/// Every character of `s` is a digit.
pub open spec fn all_digits(s: Seq<char>) -> bool {
    forall|i: int| 0 <= i < s.len() ==> is_digit(s[i])
}

/// The value of a digit string read in base ten.
pub open spec fn digits_val(s: Seq<char>) -> int
    decreases s.len(),
{
    if s.len() == 0 {
        0
    } else {
        digits_val(s.drop_last()) * 10 + digit_val(s.last())
    }
}

/// What `str::parse::<u32>` returns: an optional leading `+`, then at least
/// one digit, and a value that fits in a `u32`; anything else fails.
pub open spec fn parse_u32_spec(s: Seq<char>) -> Option<u32> {
    let digits = if s.len() > 0 && s[0] == '+' {
        s.drop_first()
    } else {
        s
    };
    if digits.len() > 0 && all_digits(digits) && digits_val(digits) <= u32::MAX {
        Some(digits_val(digits) as u32)
    } else {
        None
    }
}

proof fn lemma_digits_val_grows(s: Seq<char>, n: int)
    requires
        all_digits(s),
        0 <= n <= s.len(),
    ensures
        0 <= digits_val(s.take(n)) <= digits_val(s),
    decreases s.len(),
{
    if s.len() == 0 {
        assert(s.take(n) =~= s);
    } else {
        let t = s.drop_last();
        assert(forall|i: int| 0 <= i < t.len() ==> t[i] == s[i]);
        if n == s.len() {
            assert(s.take(n) =~= s);
            lemma_digits_val_grows(t, t.len() as int);
            assert(t.take(t.len() as int) =~= t);
        } else {
            assert(s.take(n) =~= t.take(n));
            lemma_digits_val_grows(t, n);
        }
    }
}

/// Reads `s` as `str::parse::<u32>` does.
pub fn parse_u32(s: &str) -> (r: Option<u32>)
    ensures
        r == parse_u32_spec(s@),
{
    let len: usize = s.unicode_len();
    let first: usize = if len > 0 && s.get_char(0) == '+' {
        1
    } else {
        0
    };
    let ghost digits: Seq<char> = s@.skip(first as int);
    proof {
        if first == 0 {
            assert(digits =~= s@);
        } else {
            assert(digits =~= s@.drop_first());
        }
    }
    if first == len {
        return None;
    }
    let mut acc: u64 = 0;
    let mut j: usize = first;
    proof {
        assert(digits.take(0) =~= Seq::<char>::empty());
    }
    while j < len
        invariant
            len == s@.len(),
            first <= j <= len,
            digits == s@.skip(first as int),
            digits == (if s@.len() > 0 && s@[0] == '+' {
                s@.drop_first()
            } else {
                s@
            }),
            forall|k: int| 0 <= k < j - first ==> is_digit(digits[k]),
            acc == digits_val(digits.take(j - first)),
            acc <= u32::MAX,
        decreases len - j,
    {
        let c = s.get_char(j);
        let u = c as u32;
        proof {
            assert(digits[j - first] == s@[j as int]);
        }
        if !(0x30 <= u && u <= 0x39) {
            proof {
                assert(!all_digits(digits));
            }
            return None;
        }
        let d: u64 = (u - 0x30) as u64;
        proof {
            assert(digits.take(j - first + 1).drop_last() =~= digits.take(j - first));
            assert(digits.take(j - first + 1).last() == digits[j - first]);
        }
        acc = acc * 10 + d;
        j = j + 1;
        if acc > 0xffff_ffff {
            proof {
                if all_digits(digits) {
                    lemma_digits_val_grows(digits, j - first);
                }
            }
            return None;
        }
    }
    proof {
        assert(digits.take(len - first) =~= digits);
    }
    Some(acc as u32)
}

} // verus!
