//! Character-level helpers shared by the notation readers and writers:
//! turning strings into character vectors and back, splitting a line into
//! whitespace-separated words or into separator-delimited parts, and reading
//! and writing unsigned decimal numbers.

use vstd::prelude::*;

verus! {

/// Appends `c` to `s`; this is `String::push` from std, whose contract is
/// believed: the string's characters afterwards are the old ones followed by `c`.
#[verifier::external_body]
pub(crate) fn push_char(s: &mut String, c: char)
    ensures
        final(s)@ == old(s)@.push(c),
{
    s.push(c);
}

/// The characters of `s`, in order.
pub fn chars_of(s: &str) -> (v: Vec<char>)
    ensures
        v@ == s@,
{
    let mut out: Vec<char> = Vec::new();
    for c in it: s.chars()
        invariant
            it.seq() == s@,
            out@ == it.seq().take(it.index() as int),
    {
        out.push(c);
    }
    out
}

/// A string made of the characters `cs`.
pub fn string_of(cs: &Vec<char>) -> (s: String)
    ensures
        s@ == cs@,
{
    let mut s = String::new();
    let mut i: usize = 0;
    while i < cs.len()
        invariant
            i <= cs.len(),
            s@ == cs@.take(i as int),
        decreases cs.len() - i,
    {
        push_char(&mut s, cs[i]);
        assert(cs@.take(i as int).push(cs@[i as int]) =~= cs@.take(i + 1));
        i = i + 1;
    }
    assert(cs@.take(cs@.len() as int) =~= cs@);
    s
}

/// Unicode `White_Space`, the set that `char::is_whitespace` tests.
pub open spec fn is_space(c: char) -> bool {
    ||| ('\u{9}' <= c && c <= '\u{d}')
    ||| c == ' '
    ||| c == '\u{85}'
    ||| c == '\u{a0}'
    ||| c == '\u{1680}'
    ||| ('\u{2000}' <= c && c <= '\u{200a}')
    ||| c == '\u{2028}'
    ||| c == '\u{2029}'
    ||| c == '\u{202f}'
    ||| c == '\u{205f}'
    ||| c == '\u{3000}'
}

pub fn is_space_char(c: char) -> (r: bool)
    ensures
        r == is_space(c),
{
    ('\u{9}' <= c && c <= '\u{d}') || c == ' ' || c == '\u{85}' || c == '\u{a0}' || c
        == '\u{1680}' || ('\u{2000}' <= c && c <= '\u{200a}') || c == '\u{2028}' || c
        == '\u{2029}' || c == '\u{202f}' || c == '\u{205f}' || c == '\u{3000}'
}

/// The words of `s` from position `i` on, given the word `cur` read so far and
/// the words `acc` completed before it: maximal runs of characters that are
/// not white space, in order.
pub open spec fn words_from(s: Seq<char>, i: int, cur: Seq<char>, acc: Seq<Seq<char>>) -> Seq<
    Seq<char>,
>
    decreases s.len() - i,
{
    if i >= s.len() {
        if cur.len() > 0 {
            acc.push(cur)
        } else {
            acc
        }
    } else if is_space(s[i]) {
        words_from(s, i + 1, seq![], if cur.len() > 0 { acc.push(cur) } else { acc })
    } else {
        words_from(s, i + 1, cur.push(s[i]), acc)
    }
}

/// The whitespace-separated words of `s` (what `str::split_whitespace` yields).
pub open spec fn words(s: Seq<char>) -> Seq<Seq<char>> {
    words_from(s, 0, seq![], seq![])
}

pub open spec fn views(v: Seq<Vec<char>>) -> Seq<Seq<char>> {
    v.map_values(|w: Vec<char>| w@)
}

/// Splits `cs` into its whitespace-separated words.
pub fn split_words(cs: &Vec<char>) -> (r: Vec<Vec<char>>)
    ensures
        views(r@) == words(cs@),
{
    let mut acc: Vec<Vec<char>> = Vec::new();
    let mut cur: Vec<char> = Vec::new();
    let mut i: usize = 0;
    assert(views(acc@) =~= seq![]);
    assert(cur@ =~= seq![]);
    while i < cs.len()
        invariant
            i <= cs.len(),
            words(cs@) == words_from(cs@, i as int, cur@, views(acc@)),
        decreases cs.len() - i,
    {
        let c = cs[i];
        let ghost acc0 = views(acc@);
        let ghost cur0 = cur@;
        if is_space_char(c) {
            if cur.len() > 0 {
                acc.push(cur);
                cur = Vec::new();
                assert(views(acc@) =~= acc0.push(cur0));
            }
            assert(cur@ =~= seq![]);
        } else {
            cur.push(c);
        }
        i = i + 1;
    }
    let ghost acc0 = views(acc@);
    let ghost cur0 = cur@;
    if cur.len() > 0 {
        acc.push(cur);
        assert(views(acc@) =~= acc0.push(cur0));
    }
    acc
}

/// The parts of `s` from position `i` on that `sep` delimits, given the part
/// `cur` read so far and the parts `acc` completed before it.
pub open spec fn parts_from(s: Seq<char>, sep: char, i: int, cur: Seq<char>, acc: Seq<Seq<char>>) -> Seq<
    Seq<char>,
>
    decreases s.len() - i,
{
    if i >= s.len() {
        acc.push(cur)
    } else if s[i] == sep {
        parts_from(s, sep, i + 1, seq![], acc.push(cur))
    } else {
        parts_from(s, sep, i + 1, cur.push(s[i]), acc)
    }
}

/// The parts of `s` between occurrences of `sep` (what `str::split` yields for
/// a one-character pattern): always one more part than there are separators.
pub open spec fn parts(s: Seq<char>, sep: char) -> Seq<Seq<char>> {
    parts_from(s, sep, 0, seq![], seq![])
}

/// Splits `cs` at every occurrence of `sep`.
pub fn split_parts(cs: &Vec<char>, sep: char) -> (r: Vec<Vec<char>>)
    ensures
        views(r@) == parts(cs@, sep),
{
    let mut acc: Vec<Vec<char>> = Vec::new();
    let mut cur: Vec<char> = Vec::new();
    let mut i: usize = 0;
    assert(views(acc@) =~= seq![]);
    assert(cur@ =~= seq![]);
    while i < cs.len()
        invariant
            i <= cs.len(),
            parts(cs@, sep) == parts_from(cs@, sep, i as int, cur@, views(acc@)),
        decreases cs.len() - i,
    {
        let c = cs[i];
        let ghost acc0 = views(acc@);
        let ghost cur0 = cur@;
        if c == sep {
            acc.push(cur);
            cur = Vec::new();
            assert(views(acc@) =~= acc0.push(cur0));
            assert(cur@ =~= seq![]);
        } else {
            cur.push(c);
        }
        i = i + 1;
    }
    let ghost acc0 = views(acc@);
    let ghost cur0 = cur@;
    acc.push(cur);
    assert(views(acc@) =~= acc0.push(cur0));
    acc
}

/// Whether `c` occurs in `cs`.
pub fn contains_char(cs: &Vec<char>, c: char) -> (r: bool)
    ensures
        r == cs@.contains(c),
{
    let mut i: usize = 0;
    while i < cs.len()
        invariant
            i <= cs.len(),
            forall|j: int| 0 <= j < i ==> cs@[j] != c,
        decreases cs.len() - i,
    {
        if cs[i] == c {
            assert(cs@[i as int] == c);
            return true;
        }
        i = i + 1;
    }
    false
}

pub open spec fn is_digit(c: char) -> bool {
    '0' <= c && c <= '9'
}

pub open spec fn digit_value(c: char) -> int {
    c as int - '0' as int
}

pub open spec fn all_digits(s: Seq<char>) -> bool {
    forall|i: int| 0 <= i < s.len() ==> is_digit(#[trigger] s[i])
}

/// The number that the decimal digits `s` spell, most significant first.
pub open spec fn decimal_value(s: Seq<char>) -> int
    decreases s.len(),
{
    if s.len() == 0 {
        0
    } else {
        decimal_value(s.drop_last()) * 10 + digit_value(s.last())
    }
}

/// The digits of an unsigned number as `str::parse` reads them: an optional
/// leading `+` is dropped.
pub open spec fn unsigned_digits(s: Seq<char>) -> Seq<char> {
    if s.len() > 0 && s[0] == '+' {
        s.drop_first()
    } else {
        s
    }
}

/// What `str::parse::<u32>` gives for `s`: a value when `s` is an optional
/// `+` followed by at least one decimal digit and the number fits in a `u32`.
pub open spec fn parsed_u32(s: Seq<char>) -> Option<u32> {
    let d = unsigned_digits(s);
    if d.len() > 0 && all_digits(d) && decimal_value(d) <= u32::MAX {
        Some(decimal_value(d) as u32)
    } else {
        None
    }
}

pub proof fn lemma_decimal_value_grows(s: Seq<char>, k: int)
    requires
        all_digits(s),
        0 <= k <= s.len(),
    ensures
        0 <= decimal_value(s.take(k)) <= decimal_value(s),
    decreases s.len(),
{
    if s.len() == 0 {
        assert(s.take(k) =~= s);
    } else if k == s.len() {
        assert(s.take(k) =~= s);
        lemma_decimal_value_grows(s.drop_last(), k - 1);
    } else {
        assert(all_digits(s.drop_last()));
        lemma_decimal_value_grows(s.drop_last(), k);
        assert(s.drop_last().take(k) =~= s.take(k));
        assert(is_digit(s[s.len() - 1]));
    }
}

/// Reads an unsigned 32-bit number the way `str::parse::<u32>` does.
pub fn parse_u32(cs: &Vec<char>) -> (r: Option<u32>)
    ensures
        r == parsed_u32(cs@),
{
    let ghost d = unsigned_digits(cs@);
    let start: usize = if cs.len() > 0 && cs[0] == '+' {
        1
    } else {
        0
    };
    assert(d =~= cs@.subrange(start as int, cs@.len() as int));
    if start == cs.len() {
        return None;
    }
    let mut i: usize = start;
    while i < cs.len()
        invariant
            start <= i <= cs.len(),
            d == unsigned_digits(cs@),
            d == cs@.subrange(start as int, cs@.len() as int),
            forall|j: int| start <= j < i ==> is_digit(#[trigger] cs@[j]),
        decreases cs.len() - i,
    {
        if !('0' <= cs[i] && cs[i] <= '9') {
            assert(!is_digit(d[i - start]));
            return None;
        }
        i = i + 1;
    }
    assert(all_digits(d));
    let mut value: u64 = 0;
    let mut i: usize = start;
    while i < cs.len()
        invariant
            start <= i <= cs.len(),
            d == unsigned_digits(cs@),
            d == cs@.subrange(start as int, cs@.len() as int),
            all_digits(d),
            value == decimal_value(d.take(i - start)),
            value <= u32::MAX,
        decreases cs.len() - i,
    {
        let c = cs[i];
        assert(is_digit(d[i - start]));
        assert(d[i - start] == c);
        let digit = (c as u32 - 48u32) as u64;
        assert(d.take(i - start + 1).drop_last() =~= d.take(i - start));
        assert(d.take(i - start + 1).last() == cs@[i as int]);
        value = value * 10 + digit;
        if value > 0xffff_ffff {
            proof {
                lemma_decimal_value_grows(d, i - start + 1);
            }
            return None;
        }
        i = i + 1;
    }
    assert(d.take(d.len() as int) =~= d);
    Some(value as u32)
}

/// The decimal digits of `n`, most significant first, without leading zeros.
pub open spec fn decimal(n: nat) -> Seq<char>
    decreases n,
{
    if n < 10 {
        seq![(n + '0' as nat) as char]
    } else {
        decimal(n / 10).push(((n % 10) + '0' as nat) as char)
    }
}

proof fn lemma_decimal_digits(n: nat)
    ensures
        decimal(n).len() > 0,
        all_digits(decimal(n)),
        decimal_value(decimal(n)) == n,
        decimal(n)[0] != '+',
    decreases n,
{
    if n < 10 {
        let d = decimal(n);
        assert(d.drop_last() =~= Seq::<char>::empty());
        assert(decimal_value(Seq::<char>::empty()) == 0);
        assert(d.last() as int == n + 48);
        assert(digit_value(d.last()) == n);
        assert(decimal_value(d) == decimal_value(d.drop_last()) * 10 + digit_value(d.last()));
    }
    if n >= 10 {
        lemma_decimal_digits(n / 10);
        let d = decimal(n);
        assert(d.drop_last() =~= decimal(n / 10));
        assert(d[0] == decimal(n / 10)[0]);
        let c = ((n % 10) + '0' as nat) as char;
        assert(d.last() == c);
        assert(c as int == (n % 10) + 48);
        assert(digit_value(d.last()) == n % 10);
        assert(decimal_value(d) == decimal_value(decimal(n / 10)) * 10 + n % 10);
        assert(n == (n / 10) * 10 + n % 10);
        assert forall|i: int| 0 <= i < d.len() implies is_digit(#[trigger] d[i]) by {
            if i < d.len() - 1 {
                assert(d[i] == decimal(n / 10)[i]);
            }
        }
    }
}

/// Writing a number in decimal and reading it back as a `u32` gives the
/// number.
pub proof fn lemma_decimal_reads_back(n: u32)
    ensures
        parsed_u32(decimal(n as nat)) == Some(n),
{
    lemma_decimal_digits(n as nat);
}

/// Appends the decimal digits of `n` to `s`.
pub fn push_decimal(s: &mut String, n: usize)
    ensures
        final(s)@ == old(s)@ + decimal(n as nat),
    decreases n,
{
    if n >= 10 {
        push_decimal(s, n / 10);
    }
    let digit = (n % 10) as u8;
    push_char(s, (48u8 + digit) as char);
    proof {
        if n >= 10 {
            assert(old(s)@ + decimal(n as nat) =~= old(s)@ + decimal((n / 10) as nat) + seq![((n % 10) as nat + '0' as nat) as char]);
        } else {
            assert(old(s)@ + decimal(n as nat) =~= old(s)@.push((n as nat + '0' as nat) as char));
        }
    }
}

/// Reading a run of characters that are not white space adds them to the
/// word being read.
pub proof fn lemma_words_run(s: Seq<char>, i: int, j: int, cur: Seq<char>, acc: Seq<Seq<char>>)
    requires
        0 <= i <= j <= s.len(),
        forall|k: int| i <= k < j ==> !is_space(#[trigger] s[k]),
    ensures
        words_from(s, i, cur, acc) == words_from(s, j, cur + s.subrange(i, j), acc),
    decreases j - i,
{
    if i < j {
        lemma_words_run(s, i + 1, j, cur.push(s[i]), acc);
        assert(cur.push(s[i]) + s.subrange(i + 1, j) =~= cur + s.subrange(i, j));
    } else {
        assert(cur + s.subrange(i, j) =~= cur);
    }
}

/// Reading a run of characters other than `sep` adds them to the part being read.
pub proof fn lemma_parts_run(s: Seq<char>, sep: char, i: int, j: int, cur: Seq<char>, acc: Seq<Seq<char>>)
    requires
        0 <= i <= j <= s.len(),
        forall|k: int| i <= k < j ==> #[trigger] s[k] != sep,
    ensures
        parts_from(s, sep, i, cur, acc) == parts_from(s, sep, j, cur + s.subrange(i, j), acc),
    decreases j - i,
{
    if i < j {
        lemma_parts_run(s, sep, i + 1, j, cur.push(s[i]), acc);
        assert(cur.push(s[i]) + s.subrange(i + 1, j) =~= cur + s.subrange(i, j));
    } else {
        assert(cur + s.subrange(i, j) =~= cur);
    }
}

/// The sequences `fs` written one after another with `sep` between each two.
pub open spec fn joined(fs: Seq<Seq<char>>, sep: char) -> Seq<char>
    decreases fs.len(),
{
    if fs.len() == 0 {
        seq![]
    } else if fs.len() == 1 {
        fs[0]
    } else {
        fs[0] + seq![sep] + joined(fs.drop_first(), sep)
    }
}

proof fn lemma_parts_from_acc(s: Seq<char>, sep: char, i: int, cur: Seq<char>, acc: Seq<Seq<char>>)
    requires
        0 <= i <= s.len(),
    ensures
        parts_from(s, sep, i, cur, acc) == acc + parts_from(s, sep, i, cur, seq![]),
    decreases s.len() - i,
{
    if i >= s.len() {
        assert(acc.push(cur) =~= acc + seq![cur]);
    } else if s[i] == sep {
        lemma_parts_from_acc(s, sep, i + 1, seq![], acc.push(cur));
        lemma_parts_from_acc(s, sep, i + 1, seq![], seq![cur]);
        assert(Seq::<Seq<char>>::empty().push(cur) =~= seq![cur]);
        let rest = parts_from(s, sep, i + 1, seq![], seq![]);
        assert(acc.push(cur) + rest =~= acc + (seq![cur] + rest));
    } else {
        lemma_parts_from_acc(s, sep, i + 1, cur.push(s[i]), acc);
    }
}

proof fn lemma_parts_from_joins(s: Seq<char>, sep: char, i: int, cur: Seq<char>)
    requires
        0 <= i <= s.len(),
        !cur.contains(sep),
    ensures
        parts_from(s, sep, i, cur, seq![]).len() >= 1,
        joined(parts_from(s, sep, i, cur, seq![]), sep) == cur + s.subrange(i, s.len() as int),
        forall|k: int|
            0 <= k < parts_from(s, sep, i, cur, seq![]).len() ==> !(#[trigger] parts_from(s, sep, i, cur, seq![])[k]).contains(sep),
    decreases s.len() - i,
{
    let r = parts_from(s, sep, i, cur, seq![]);
    if i >= s.len() {
        assert(r =~= seq![cur]);
        assert(cur + s.subrange(i, s.len() as int) =~= cur);
    } else if s[i] == sep {
        assert(Seq::<Seq<char>>::empty().push(cur) =~= seq![cur]);
        lemma_parts_from_acc(s, sep, i + 1, seq![], seq![cur]);
        lemma_parts_from_joins(s, sep, i + 1, seq![]);
        let rest = parts_from(s, sep, i + 1, seq![], seq![]);
        assert(r == seq![cur] + rest);
        assert((seq![cur] + rest).drop_first() =~= rest);
        assert(joined(r, sep) == cur + seq![sep] + joined(rest, sep));
        assert(cur + seq![sep] + (Seq::<char>::empty() + s.subrange(i + 1, s.len() as int)) =~= cur + s.subrange(
            i,
            s.len() as int,
        ));
        assert forall|k: int| 0 <= k < r.len() implies !(#[trigger] r[k]).contains(sep) by {
            if k == 0 {
                assert(r[0] == cur);
            } else {
                assert(r[k] == rest[k - 1]);
            }
        }
    } else {
        let cur2 = cur.push(s[i]);
        assert(!cur2.contains(sep)) by {
            if cur2.contains(sep) {
                let k = choose|k: int| 0 <= k < cur2.len() && cur2[k] == sep;
                if k < cur.len() {
                    assert(cur[k] == sep);
                }
            }
        }
        lemma_parts_from_joins(s, sep, i + 1, cur2);
        assert(cur2 + s.subrange(i + 1, s.len() as int) =~= cur + s.subrange(i, s.len() as int));
    }
}

/// Splitting at `sep` cuts the text into parts that hold no `sep` and that,
/// joined again with `sep` between them, give the text back.
pub proof fn lemma_parts_join_back(s: Seq<char>, sep: char)
    ensures
        parts(s, sep).len() >= 1,
        joined(parts(s, sep), sep) == s,
        forall|k: int| 0 <= k < parts(s, sep).len() ==> !(#[trigger] parts(s, sep)[k]).contains(sep),
{
    assert(!Seq::<char>::empty().contains(sep));
    lemma_parts_from_joins(s, sep, 0, seq![]);
    assert(Seq::<char>::empty() + s.subrange(0, s.len() as int) =~= s);
}

/// Splitting `sep`-joined parts that hold no `sep` gives the parts back.
pub proof fn lemma_parts_of_joined(s: Seq<char>, sep: char, i: int, fs: Seq<Seq<char>>, acc: Seq<Seq<char>>)
    requires
        0 <= i <= s.len(),
        fs.len() >= 1,
        s.subrange(i, s.len() as int) == joined(fs, sep),
        forall|k: int, m: int| 0 <= k < fs.len() && 0 <= m < fs[k].len() ==> #[trigger] fs[k][m] != sep,
    ensures
        parts_from(s, sep, i, seq![], acc) == acc + fs,
    decreases fs.len(),
{
    let f = fs[0];
    let n = f.len() as int;
    let rest = s.subrange(i, s.len() as int);
    let tail = fs.drop_first();
    if fs.len() == 1 {
        assert(rest == f);
    } else {
        assert(rest == f + seq![sep] + joined(tail, sep));
    }
    assert(n <= rest.len());
    assert(rest.subrange(0, n) =~= f);
    assert forall|k: int| i <= k < i + n implies #[trigger] s[k] != sep by {
        assert(s[k] == rest[k - i]);
        assert(rest[k - i] == f[k - i]);
        assert(fs[0][k - i] != sep);
    }
    lemma_parts_run(s, sep, i, i + n, seq![], acc);
    assert(seq![] + s.subrange(i, i + n) =~= f);
    if fs.len() == 1 {
        assert(acc.push(f) =~= acc + fs);
    } else {
        assert(s[i + n] == rest[n]);
        let j = joined(tail, sep);
        assert((f + seq![sep] + j).subrange(n + 1, rest.len() as int) =~= j);
        assert(s.subrange(i + n + 1, s.len() as int) =~= rest.subrange(n + 1, rest.len() as int));
        assert forall|k: int, m: int| 0 <= k < tail.len() && 0 <= m < tail[k].len() implies #[trigger] tail[k][m]
            != sep by {
            assert(tail[k] == fs[k + 1]);
            assert(fs[k + 1][m] != sep);
        }
        lemma_parts_of_joined(s, sep, i + n + 1, tail, acc.push(f));
        assert(acc.push(f) + tail =~= acc + fs);
    }
}

/// Splitting space-joined words, none empty and none holding white space,
/// gives the words back.
pub proof fn lemma_words_of_joined(s: Seq<char>, i: int, fs: Seq<Seq<char>>, acc: Seq<Seq<char>>)
    requires
        0 <= i <= s.len(),
        fs.len() >= 1,
        s.subrange(i, s.len() as int) == joined(fs, ' '),
        forall|k: int| 0 <= k < fs.len() ==> (#[trigger] fs[k]).len() > 0,
        forall|k: int, m: int| 0 <= k < fs.len() && 0 <= m < fs[k].len() ==> !is_space(#[trigger] fs[k][m]),
    ensures
        words_from(s, i, seq![], acc) == acc + fs,
    decreases fs.len(),
{
    let f = fs[0];
    let n = f.len() as int;
    let rest = s.subrange(i, s.len() as int);
    let tail = fs.drop_first();
    if fs.len() == 1 {
        assert(rest == f);
    } else {
        assert(rest == f + seq![' '] + joined(tail, ' '));
    }
    assert(n <= rest.len());
    assert(rest.subrange(0, n) =~= f);
    assert forall|k: int| i <= k < i + n implies !is_space(#[trigger] s[k]) by {
        assert(s[k] == rest[k - i]);
        assert(rest[k - i] == f[k - i]);
        assert(!is_space(fs[0][k - i]));
    }
    lemma_words_run(s, i, i + n, seq![], acc);
    assert(seq![] + s.subrange(i, i + n) =~= f);
    assert(fs[0].len() > 0);
    if fs.len() == 1 {
        assert(acc.push(f) =~= acc + fs);
    } else {
        assert(s[i + n] == rest[n]);
        assert(is_space(' '));
        let j = joined(tail, ' ');
        assert((f + seq![' '] + j).subrange(n + 1, rest.len() as int) =~= j);
        assert(s.subrange(i + n + 1, s.len() as int) =~= rest.subrange(n + 1, rest.len() as int));
        assert forall|k: int| 0 <= k < tail.len() implies (#[trigger] tail[k]).len() > 0 by {
            assert(tail[k] == fs[k + 1]);
        }
        assert forall|k: int, m: int| 0 <= k < tail.len() && 0 <= m < tail[k].len() implies !is_space(
            #[trigger] tail[k][m],
        ) by {
            assert(tail[k] == fs[k + 1]);
            assert(!is_space(fs[k + 1][m]));
        }
        lemma_words_of_joined(s, i + n + 1, tail, acc.push(f));
        assert(acc.push(f) + tail =~= acc + fs);
    }
}

} // verus!
