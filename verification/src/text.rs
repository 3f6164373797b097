//! Character-level text handling shared by the parsers and reports: Unicode
//! whitespace, word splitting, unsigned decimal numbers, and the named
//! upper-case mapping.
use vstd::prelude::*;

verus! {

/// Unicode `White_Space`: the characters `char::is_whitespace` accepts.
pub open spec fn is_white(c: char) -> bool {
    let u = c as u32;
    ||| 0x09 <= u <= 0x0d
    ||| u == 0x20
    ||| u == 0x85
    ||| u == 0xa0
    ||| u == 0x1680
    ||| 0x2000 <= u <= 0x200a
    ||| u == 0x2028
    ||| u == 0x2029
    ||| u == 0x202f
    ||| u == 0x205f
    ||| u == 0x3000
}

/// Whether `c` is Unicode whitespace.
pub fn white(c: char) -> (b: bool)
    ensures
        b == is_white(c),
{
    let u = c as u32;
    (0x09 <= u && u <= 0x0d) || u == 0x20 || u == 0x85 || u == 0xa0 || u == 0x1680 || (0x2000 <= u && u <= 0x200a)
        || u == 0x2028 || u == 0x2029 || u == 0x202f || u == 0x205f || u == 0x3000
}

/// Maximal runs of non-whitespace characters, in order: the words that
/// `str::split_whitespace` yields.
pub open spec fn split_words(s: Seq<char>) -> Seq<Seq<char>>
    decreases s.len(),
{
    if s.len() == 0 {
        Seq::empty()
    } else {
        let w = split_words(s.drop_last());
        let c = s.last();
        if is_white(c) {
            w
        } else if s.len() >= 2 && !is_white(s[s.len() - 2]) {
            w.update(w.len() - 1, w.last().push(c))
        } else {
            w.push(seq![c])
        }
    }
}

/// Pieces of `s` between occurrences of `sep`, in order (one more piece
/// than there are separators), as `str::split` yields them.
pub open spec fn split_on(s: Seq<char>, sep: char) -> Seq<Seq<char>>
    decreases s.len(),
{
    if s.len() == 0 {
        seq![Seq::empty()]
    } else {
        let p = split_on(s.drop_last(), sep);
        if s.last() == sep {
            p.push(Seq::empty())
        } else {
            p.update(p.len() - 1, p.last().push(s.last()))
        }
    }
}

/// The views of a sequence of character vectors.
pub open spec fn views(v: Seq<Vec<char>>) -> Seq<Seq<char>> {
    v.map_values(|w: Vec<char>| w@)
}

/// The characters of a string, in order.
pub fn chars_of(s: &str) -> (v: Vec<char>)
    ensures
        v@ == s@,
{
    broadcast use vstd::string::group_string_axioms;

    let mut v: Vec<char> = Vec::new();
    for c in it: s.chars()
        invariant
            it.seq() == s@,
            v@ == it.seq().take(it.index() as int),
    {
        v.push(c);
    }
    v
}

/// Appends the characters of `s` to `v`.
pub fn push_str(v: &mut Vec<char>, s: &str)
    ensures
        final(v)@ == old(v)@ + s@,
{
    let n = s.unicode_len();
    let ghost start = v@;
    let mut i: usize = 0;
    while i < n
        invariant
            n == s@.len(),
            i <= n,
            v@ == start + s@.take(i as int),
        decreases n - i,
    {
        v.push(s.get_char(i));
        assert(s@.take(i + 1) =~= s@.take(i as int).push(s@[i as int]));
        i += 1;
    }
    assert(s@.take(n as int) =~= s@);
}

/// Appends the characters of `s` to `v`.
pub fn push_chars(v: &mut Vec<char>, s: &Vec<char>)
    ensures
        final(v)@ == old(v)@ + s@,
{
    let ghost start = v@;
    let mut i: usize = 0;
    while i < s.len()
        invariant
            i <= s@.len(),
            v@ == start + s@.take(i as int),
        decreases s@.len() - i,
    {
        v.push(s[i]);
        assert(s@.take(i + 1) =~= s@.take(i as int).push(s@[i as int]));
        i += 1;
    }
    assert(s@.take(s@.len() as int) =~= s@);
}

/// Whether the characters of `v` spell `s`.
pub fn eq_str(v: &Vec<char>, s: &str) -> (b: bool)
    ensures
        b == (v@ == s@),
{
    let n = s.unicode_len();
    if v.len() != n {
        return false;
    }
    let mut i: usize = 0;
    while i < n
        invariant
            n == s@.len(),
            n == v@.len(),
            i <= n,
            forall|k: int| 0 <= k < i ==> v@[k] == s@[k],
        decreases n - i,
    {
        if v[i] != s.get_char(i) {
            return false;
        }
        i += 1;
    }
    assert(v@ =~= s@);
    true
}

/// Words of `line`, as `split_words` describes them.
pub fn words_of(line: &Vec<char>) -> (w: Vec<Vec<char>>)
    ensures
        views(w@) == split_words(line@),
{
    let mut words: Vec<Vec<char>> = Vec::new();
    let mut i: usize = 0;
    while i < line.len()
        invariant
            i <= line@.len(),
            views(words@) == split_words(line@.take(i as int)),
            i >= 1 && !is_white(line@[i - 1]) ==> words@.len() >= 1,
        decreases line@.len() - i,
    {
        let c = line[i];
        let ghost pre = line@.take(i as int);
        let ghost cur = line@.take(i + 1);
        assert(cur.drop_last() =~= pre);
        assert(cur.last() == c);
        if white(c) {
        } else if i >= 1 && !white(line[i - 1]) {
            assert(cur[cur.len() - 2] == line@[i - 1]);
            let mut last = words.pop().unwrap();
            last.push(c);
            words.push(last);
            assert(views(words@) =~= split_words(cur));
        } else {
            proof {
                if i >= 1 {
                    assert(cur[cur.len() - 2] == line@[i - 1]);
                }
            }
            let mut fresh: Vec<char> = Vec::new();
            fresh.push(c);
            assert(fresh@ =~= seq![c]);
            words.push(fresh);
            assert(views(words@) =~= split_words(cur));
        }
        i += 1;
    }
    assert(line@.take(line@.len() as int) =~= line@);
    words
}

/// The character of a decimal digit.
pub open spec fn digit_char(d: nat) -> char {
    (48 + d) as char
}

/// Decimal digits of `n`, without leading zeros.
pub open spec fn decimal(n: nat) -> Seq<char>
    decreases n,
{
    if n < 10 {
        seq![digit_char(n)]
    } else {
        decimal(n / 10) + seq![digit_char(n % 10)]
    }
}

/// Appends the decimal digits of `n` to `v`.
pub fn push_decimal(v: &mut Vec<char>, n: u128)
    ensures
        final(v)@ == old(v)@ + decimal(n as nat),
    decreases n,
{
    if n >= 10 {
        push_decimal(v, n / 10);
    }
    let d = (n % 10) as u8;
    let c = (48u8 + d) as char;
    assert(c == digit_char((n % 10) as nat));
    v.push(c);
}

/// The value of a string of decimal digits.
pub open spec fn digits_value(s: Seq<char>) -> nat
    decreases s.len(),
{
    if s.len() == 0 {
        0
    } else {
        digits_value(s.drop_last()) * 10 + ((s.last() as u32) - 48) as nat
    }
}

/// Every character is an ASCII digit.
pub open spec fn all_digits(s: Seq<char>) -> bool {
    forall|i: int| 0 <= i < s.len() ==> '0' <= #[trigger] s[i] <= '9'
}

/// The digits of an unsigned number: the text without a leading `+`.
pub open spec fn unsigned_digits(s: Seq<char>) -> Seq<char> {
    if s.len() > 0 && s[0] == '+' {
        s.drop_first()
    } else {
        s
    }
}

/// What `str::parse::<usize>` gives: an optional `+` followed by at least
/// one ASCII digit, with a value that fits.
pub open spec fn spec_parse_usize(s: Seq<char>) -> Option<usize> {
    let d = unsigned_digits(s);
    if d.len() > 0 && all_digits(d) && digits_value(d) <= usize::MAX {
        Some(digits_value(d) as usize)
    } else {
        None
    }
}

/// Reads an unsigned decimal number.
pub fn parse_usize(s: &Vec<char>) -> (r: Option<usize>)
    ensures
        r == spec_parse_usize(s@),
{
    let start: usize = if s.len() > 0 && s[0] == '+' { 1 } else { 0 };
    let ghost d = unsigned_digits(s@);
    assert(d =~= s@.skip(start as int));
    if start >= s.len() {
        return None;
    }
    let mut acc: usize = 0;
    let mut i: usize = start;
    while i < s.len()
        invariant
            start <= i <= s@.len(),
            d == s@.skip(start as int),
            d == unsigned_digits(s@),
            all_digits(s@.subrange(start as int, i as int)),
            acc == digits_value(s@.subrange(start as int, i as int)),
        decreases s@.len() - i,
    {
        let c = s[i];
        let ghost pre = s@.subrange(start as int, i as int);
        let ghost cur = s@.subrange(start as int, i + 1);
        assert(cur.drop_last() =~= pre);
        if !('0' <= c && c <= '9') {
            assert(!all_digits(d)) by {
                assert(d[i - start] == c);
            }
            assert(spec_parse_usize(s@) is None);
            return None;
        }
        let dig = (c as u32 - 48) as usize;
        if acc > (usize::MAX - dig) / 10 {
            proof {
                assert(digits_value(cur) == acc * 10 + dig);
                assert(acc * 10 + dig > usize::MAX) by (nonlinear_arith)
                    requires
                        acc > (usize::MAX - dig) / 10,
                        dig <= 9;
                if all_digits(d) {
                    lemma_digits_value_grows(d, (i + 1 - start) as nat);
                    assert(d.take(i + 1 - start) =~= cur);
                }
                assert(spec_parse_usize(s@) is None);
            }
            return None;
        }
        assert(acc * 10 + dig <= usize::MAX) by (nonlinear_arith)
            requires
                acc <= (usize::MAX - dig) / 10,
                dig <= 9;
        acc = acc * 10 + dig;
        assert(all_digits(cur)) by {
            assert forall|k: int| 0 <= k < cur.len() implies '0' <= #[trigger] cur[k] <= '9' by {
                if k < pre.len() {
                    assert(cur[k] == pre[k]);
                }
            }
        }
        i += 1;
    }
    assert(s@.subrange(start as int, s@.len() as int) =~= d);
    Some(acc)
}

/// A prefix of a digit string is worth no more than the whole string.
proof fn lemma_digits_value_grows(s: Seq<char>, k: nat)
    requires
        k <= s.len(),
        all_digits(s),
    ensures
        digits_value(s.take(k as int)) <= digits_value(s),
    decreases s.len(),
{
    if k < s.len() {
        assert(s.drop_last().take(k as int) =~= s.take(k as int));
        assert(all_digits(s.drop_last())) by {
            assert forall|i: int| 0 <= i < s.drop_last().len() implies '0' <= #[trigger] s.drop_last()[i] <= '9' by {
                assert(s.drop_last()[i] == s[i]);
            }
        }
        lemma_digits_value_grows(s.drop_last(), k);
        assert('0' <= s[s.len() - 1] <= '9');
    } else {
        assert(s.take(k as int) =~= s);
    }
}

/// The upper-case form of a character sequence, as `str::to_uppercase`
/// computes it.
pub uninterp spec fn spec_uppercase(s: Seq<char>) -> Seq<char>;

/// Calls `str::to_uppercase` on the string the characters spell; Unicode
/// case mapping is named by `spec_uppercase`, not described.
#[verifier::external_body]
pub fn uppercase(s: &Vec<char>) -> (r: Vec<char>)
    ensures
        r@ == spec_uppercase(s@),
{
    let text: String = s.iter().collect();
    text.to_uppercase().chars().collect()
}

/// The string spelled by the characters, collected by
/// `Iterator::collect`, which keeps them in order.
#[verifier::external_body]
pub fn string_of(s: &Vec<char>) -> (r: String)
    ensures
        r@ == s@,
{
    s.iter().collect()
}

} // verus!

verus! {

/// Every word is non-empty.
pub proof fn lemma_words_nonempty(s: Seq<char>)
    ensures
        forall|i: int| 0 <= i < split_words(s).len() ==> #[trigger] split_words(s)[i].len() > 0,
        s.len() > 0 && !is_white(s.last()) ==> split_words(s).len() > 0,
    decreases s.len(),
{
    if s.len() > 0 {
        let t = s.drop_last();
        lemma_words_nonempty(t);
        if s.len() >= 2 {
            assert(t.last() == s[s.len() - 2]);
        }
        let w = split_words(t);
        let c = s.last();
        if !is_white(c) && s.len() >= 2 && !is_white(s[s.len() - 2]) {
            assert forall|i: int| 0 <= i < split_words(s).len() implies #[trigger] split_words(s)[i].len() > 0 by {
                if i < w.len() - 1 {
                    assert(split_words(s)[i] == w[i]);
                }
            }
        }
    }
}

/// The pieces of `s` begin with the pieces of a prefix of it that ends at a
/// separator or at the end.
pub proof fn lemma_split_on_prefix(s: Seq<char>, sep: char, i: int)
    requires
        0 <= i <= s.len(),
        i == s.len() || s[i] == sep,
    ensures
        split_on(s, sep).len() >= split_on(s.take(i), sep).len(),
        split_on(s, sep).take(split_on(s.take(i), sep).len() as int) == split_on(s.take(i), sep),
{
    if i == s.len() {
        assert(s.take(i) =~= s);
        assert(split_on(s, sep).take(split_on(s, sep).len() as int) =~= split_on(s, sep));
    } else {
        lemma_split_on_extend(s, sep, i, s.len() as int);
        assert(s.take(s.len() as int) =~= s);
    }
}

proof fn lemma_split_on_extend(s: Seq<char>, sep: char, i: int, j: int)
    requires
        0 <= i < j <= s.len(),
        s[i] == sep,
    ensures
        split_on(s.take(j), sep).len() > split_on(s.take(i), sep).len(),
        split_on(s.take(j), sep).take(split_on(s.take(i), sep).len() as int) == split_on(s.take(i), sep),
    decreases j - i,
{
    let l = split_on(s.take(i), sep).len() as int;
    assert(s.take(j).drop_last() =~= s.take(j - 1));
    if j == i + 1 {
        assert(s.take(j).last() == sep);
        assert(split_on(s.take(j), sep).take(l) =~= split_on(s.take(i), sep));
    } else {
        lemma_split_on_extend(s, sep, i, j - 1);
        let p = split_on(s.take(j - 1), sep);
        assert(split_on(s.take(j), sep).take(l) =~= p.take(l));
    }
}

} // verus!
