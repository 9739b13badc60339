//! Character-level text handling: whitespace-separated words, line splitting,
//! decimal rendering and parsing of unsigned integers.
use vstd::prelude::*;

verus! {

/// Unicode `White_Space` characters.
pub open spec fn is_space(c: char) -> bool {
    ||| c == '\t'
    ||| c == '\n'
    ||| c == '\u{0B}'
    ||| c == '\u{0C}'
    ||| c == '\r'
    ||| c == ' '
    ||| c == '\u{85}'
    ||| c == '\u{A0}'
    ||| c == '\u{1680}'
    ||| ('\u{2000}' <= c && c <= '\u{200A}')
    ||| c == '\u{2028}'
    ||| c == '\u{2029}'
    ||| c == '\u{202F}'
    ||| c == '\u{205F}'
    ||| c == '\u{3000}'
}

/// Whether `c` has the Unicode `White_Space` property.
pub fn is_whitespace(c: char) -> (b: bool)
    ensures
        b == is_space(c),
{
    c == '\t' || c == '\n' || c == '\u{0B}' || c == '\u{0C}' || c == '\r' || c == ' ' || c
        == '\u{85}' || c == '\u{A0}' || c == '\u{1680}' || ('\u{2000}' <= c && c <= '\u{200A}')
        || c == '\u{2028}' || c == '\u{2029}' || c == '\u{202F}' || c == '\u{205F}' || c
        == '\u{3000}'
}

/// Appends one character to a string.
#[verifier::external_body]
pub(crate) fn push_char(s: &mut String, c: char)
    ensures
        final(s)@ == old(s)@.push(c),
{
    s.push(c)
}

/// Removes the last character of a string and returns it.
#[verifier::external_body]
pub(crate) fn pop_char(s: &mut String) -> (r: Option<char>)
    ensures
        old(s)@.len() == 0 ==> r is None && final(s)@ == old(s)@,
        old(s)@.len() > 0 ==> r == Some(old(s)@.last()) && final(s)@ == old(s)@.drop_last(),
{
    s.pop()
}

/// Scanning state after reading `s`: the words completed so far and the
/// word being read (empty between words).
pub open spec fn words_scan(s: Seq<char>) -> (Seq<Seq<char>>, Seq<char>)
    decreases s.len(),
{
    if s.len() == 0 {
        (seq![], seq![])
    } else {
        let prev = words_scan(s.drop_last());
        let c = s.last();
        if is_space(c) {
            if prev.1.len() > 0 {
                (prev.0.push(prev.1), seq![])
            } else {
                prev
            }
        } else {
            (prev.0, prev.1.push(c))
        }
    }
}

/// The maximal runs of non-whitespace characters of `s`, in order.
pub open spec fn words(s: Seq<char>) -> Seq<Seq<char>> {
    let st = words_scan(s);
    if st.1.len() > 0 {
        st.0.push(st.1)
    } else {
        st.0
    }
}

pub open spec fn no_space(w: Seq<char>) -> bool {
    forall|i: int| 0 <= i < w.len() ==> !is_space(#[trigger] w[i])
}

proof fn lemma_words_scan_shape(s: Seq<char>)
    ensures
        forall|i: int|
            0 <= i < words_scan(s).0.len() ==> (#[trigger] words_scan(s).0[i]).len() > 0
                && no_space(words_scan(s).0[i]),
        no_space(words_scan(s).1),
    decreases s.len(),
{
    if s.len() > 0 {
        lemma_words_scan_shape(s.drop_last());
        let prev = words_scan(s.drop_last());
        let c = s.last();
        if !is_space(c) {
            assert forall|i: int| 0 <= i < prev.1.push(c).len() implies !is_space(
                #[trigger] prev.1.push(c)[i],
            ) by {
                if i < prev.1.len() {
                    assert(prev.1.push(c)[i] == prev.1[i]);
                }
            }
        }
    }
}

/// Every word is non-empty and holds no whitespace.
pub proof fn lemma_words_are_nonblank(s: Seq<char>)
    ensures
        forall|i: int|
            0 <= i < words(s).len() ==> (#[trigger] words(s)[i]).len() > 0 && no_space(words(s)[i]),
{
    lemma_words_scan_shape(s);
}

/// Splits `s` into its whitespace-separated words.
pub fn split_words(s: &str) -> (ws: Vec<String>)
    ensures
        ws@.map_values(|w: String| w@) == words(s@),
{
    let mut done: Vec<String> = Vec::new();
    let mut cur = String::new();
    for c in it: s.chars()
        invariant
            it.seq() == s@,
            (done@.map_values(|w: String| w@), cur@) == words_scan(s@.take(it.index() as int)),
    {
        let ghost i = it.index();
        assert(s@.take(i + 1).drop_last() == s@.take(i as int));
        assert(s@.take(i + 1).last() == c);
        let ghost before = done@.map_values(|w: String| w@);
        if is_whitespace(c) {
            if !cur.as_str().is_empty() {
                let mut w = String::new();
                std::mem::swap(&mut w, &mut cur);
                done.push(w);
                assert(done@.map_values(|w: String| w@) == before.push(w@));
            }
        } else {
            push_char(&mut cur, c);
        }
    }
    assert(s@.take(s@.len() as int) == s@);
    if !cur.as_str().is_empty() {
        let ghost before = done@.map_values(|w: String| w@);
        done.push(cur);
        assert(done@.map_values(|w: String| w@) == before.push(cur@));
    }
    done
}

/// `l` without one trailing carriage return, if it has one.
pub open spec fn strip_cr(l: Seq<char>) -> Seq<char> {
    if l.len() > 0 && l.last() == '\r' {
        l.drop_last()
    } else {
        l
    }
}

/// Scanning state after reading `s`: the lines completed so far and the
/// line being read.
pub open spec fn lines_scan(s: Seq<char>) -> (Seq<Seq<char>>, Seq<char>)
    decreases s.len(),
{
    if s.len() == 0 {
        (seq![], seq![])
    } else {
        let prev = lines_scan(s.drop_last());
        let c = s.last();
        if c == '\n' {
            (prev.0.push(strip_cr(prev.1)), seq![])
        } else {
            (prev.0, prev.1.push(c))
        }
    }
}

/// The lines of `s`: split at `\n` or `\r\n`; the final line ending is
/// optional, and an empty text has no lines.
pub open spec fn lines(s: Seq<char>) -> Seq<Seq<char>> {
    let st = lines_scan(s);
    if st.1.len() > 0 {
        st.0.push(st.1)
    } else {
        st.0
    }
}

/// Splits `s` into its lines.
pub fn split_lines(s: &str) -> (ls: Vec<String>)
    ensures
        ls@.map_values(|l: String| l@) == lines(s@),
{
    let mut done: Vec<String> = Vec::new();
    let mut cur = String::new();
    for c in it: s.chars()
        invariant
            it.seq() == s@,
            (done@.map_values(|l: String| l@), cur@) == lines_scan(s@.take(it.index() as int)),
    {
        let ghost i = it.index();
        assert(s@.take(i + 1).drop_last() == s@.take(i as int));
        assert(s@.take(i + 1).last() == c);
        let ghost before = done@.map_values(|l: String| l@);
        if c == '\n' {
            let mut line = String::new();
            std::mem::swap(&mut line, &mut cur);
            let ghost whole = line@;
            match pop_char(&mut line) {
                Some(last) => {
                    if last != '\r' {
                        push_char(&mut line, last);
                        assert(line@ == whole);
                    }
                },
                None => {},
            }
            done.push(line);
            assert(done@.map_values(|l: String| l@) == before.push(line@));
        } else {
            push_char(&mut cur, c);
        }
    }
    assert(s@.take(s@.len() as int) == s@);
    if !cur.as_str().is_empty() {
        let ghost before = done@.map_values(|l: String| l@);
        done.push(cur);
        assert(done@.map_values(|l: String| l@) == before.push(cur@));
    }
    done
}


/// The character of decimal digit `d` (`d < 10`).
pub open spec fn digit_char(d: nat) -> char {
    (d + 48) as char
}

pub open spec fn is_digit(c: char) -> bool {
    '0' <= c && c <= '9'
}

/// The numeric value of an ASCII digit character.
pub open spec fn digit_value(c: char) -> nat {
    (c as int - 48) as nat
}

/// The shortest decimal representation of `n`.
pub open spec fn decimal(n: nat) -> Seq<char>
    decreases n,
{
    if n < 10 {
        seq![digit_char(n)]
    } else {
        decimal(n / 10).push(digit_char(n % 10))
    }
}

/// Appends the decimal representation of `n` to `out`.
pub(crate) fn push_decimal(out: &mut String, n: u64)
    ensures
        final(out)@ == old(out)@ + decimal(n as nat),
    decreases n,
{
    if n >= 10 {
        push_decimal(out, n / 10);
    }
    let d = (n % 10) as u8;
    let c = (d + 48u8) as char;
    assert(c == digit_char((n % 10) as nat));
    push_char(out, c);
    assert(final(out)@ =~= old(out)@ + decimal(n as nat)) by {
        if n >= 10 {
            assert(decimal(n as nat) == decimal((n / 10) as nat).push(digit_char((n % 10) as nat)));
        }
    }
}

/// The decimal representation of `n`, as `n.to_string()` renders it.
pub fn decimal_string(n: u64) -> (s: String)
    ensures
        s@ == decimal(n as nat),
{
    let mut s = String::new();
    push_decimal(&mut s, n);
    assert(s@ =~= decimal(n as nat));
    s
}

/// The value of a sequence of decimal digits (0 for the empty sequence).
pub open spec fn digits_value(s: Seq<char>) -> nat
    decreases s.len(),
{
    if s.len() == 0 {
        0
    } else {
        digits_value(s.drop_last()) * 10 + digit_value(s.last())
    }
}

pub open spec fn all_digits(s: Seq<char>) -> bool {
    forall|i: int| 0 <= i < s.len() ==> is_digit(#[trigger] s[i])
}

/// The digits part of an unsigned number: the text without one leading `+`.
pub open spec fn unsigned_body(s: Seq<char>) -> Seq<char> {
    if s.len() > 0 && s[0] == '+' {
        s.drop_first()
    } else {
        s
    }
}

/// What `s.parse::<u32>()` accepts: an optional `+`, then at least one
/// decimal digit, and nothing else, of a value that fits in a `u32`.
pub open spec fn parse_u32_spec(s: Seq<char>) -> Option<u32> {
    let body = unsigned_body(s);
    if body.len() > 0 && all_digits(body) && digits_value(body) <= u32::MAX {
        Some(digits_value(body) as u32)
    } else {
        None
    }
}

/// Parses an unsigned 32-bit decimal number.
pub fn parse_u32(s: &str) -> (r: Option<u32>)
    ensures
        r == parse_u32_spec(s@),
{
    let mut value: u64 = 0;
    let mut over = false;
    let mut ok = true;
    let ghost mut count: int = 0;
    let mut any = false;
    let mut skipped_plus = false;
    let mut first = true;
    let ghost body = unsigned_body(s@);
    for c in it: s.chars()
        invariant
            it.seq() == s@,
            body == unsigned_body(s@),
            skipped_plus == (s@.len() > 0 && s@[0] == '+' && it.index() > 0),
            count == if skipped_plus { it.index() - 1 } else { it.index() as int },
            0 <= count <= it.index(),
            any == (count > 0),
            ok == all_digits(body.take(count)),
            ok ==> (over <==> digits_value(body.take(count)) > u32::MAX),
            ok && !over ==> value == digits_value(body.take(count)),
            value <= u32::MAX,
            first == (it.index() == 0),
    {
        if first && c == '+' {
            skipped_plus = true;
        } else {
            let ghost prefix = body.take(count);
            assert(count < body.len());
            assert(body[count] == c);
            assert(body.take(count + 1).drop_last() == prefix);
            if ok {
                if '0' <= c && c <= '9' {
                    assert(all_digits(body.take(count + 1)));
                    if !over {
                        let d = (c as u32 - 48u32) as u64;
                        let next = value * 10 + d;
                        if next > 0xFFFF_FFFFu64 {
                            over = true;
                            value = 0;
                        } else {
                            value = next;
                        }
                    }
                } else {
                    ok = false;
                    assert(!is_digit(body.take(count + 1)[count]));
                }
            } else {
                assert(!all_digits(body.take(count + 1))) by {
                    let j = choose|j: int| 0 <= j < count && !is_digit(prefix[j]);
                    assert(body.take(count + 1)[j] == prefix[j]);
                }
            }
            proof {
                count = count + 1;
            }
            any = true;
        }
        first = false;
    }
    assert(body.take(count) == body);
    if ok && !over && any {
        Some(value as u32)
    } else {
        None
    }
}


/// A decimal representation is a non-empty run of digits whose value is `n`.
pub proof fn lemma_decimal_digits(n: nat)
    ensures
        decimal(n).len() > 0,
        all_digits(decimal(n)),
        digits_value(decimal(n)) == n,
    decreases n,
{
    assert(digit_value(digit_char(n % 10)) == n % 10);
    if n >= 10 {
        lemma_decimal_digits(n / 10);
        let d = decimal(n);
        assert(d.drop_last() == decimal(n / 10));
        assert(digit_value(digit_char(n % 10)) == n % 10);
        assert(n == (n / 10) * 10 + n % 10);
        assert(d.last() == digit_char(n % 10));
        assert(digits_value(d) == digits_value(decimal(n / 10)) * 10 + digit_value(digit_char(n % 10)));
        assert forall|i: int| 0 <= i < d.len() implies is_digit(#[trigger] d[i]) by {
            if i < d.len() - 1 {
                assert(d[i] == decimal(n / 10)[i]);
            }
        }
    } else {
        let d = decimal(n);
        assert(d.drop_last() =~= Seq::<char>::empty());
        assert(digits_value(d.drop_last()) == 0);
        assert(d.last() == digit_char(n));
    }
}

/// Rendering a count in decimal and parsing it back gives the count.
pub proof fn lemma_parse_decimal(n: u32)
    ensures
        parse_u32_spec(decimal(n as nat)) == Some(n),
{
    lemma_decimal_digits(n as nat);
    assert(is_digit(decimal(n as nat)[0]));
    assert(unsigned_body(decimal(n as nat)) == decimal(n as nat));
}

/// Distinct numbers have distinct decimal representations.
pub proof fn lemma_decimal_injective(a: nat, b: nat)
    ensures
        decimal(a) == decimal(b) ==> a == b,
{
    lemma_decimal_digits(a);
    lemma_decimal_digits(b);
}


/// Reading `p + r` after `p` has ended a word continues as reading `r`.
proof fn lemma_words_scan_append(p: Seq<char>, r: Seq<char>)
    requires
        words_scan(p).1.len() == 0,
    ensures
        words_scan(p + r) == (words_scan(p).0 + words_scan(r).0, words_scan(r).1),
    decreases r.len(),
{
    if r.len() == 0 {
        assert(p + r =~= p);
        assert(words_scan(p).0 + Seq::<Seq<char>>::empty() =~= words_scan(p).0);
    } else {
        lemma_words_scan_append(p, r.drop_last());
        assert((p + r).drop_last() =~= p + r.drop_last());
        assert((p + r).last() == r.last());
        let prev = words_scan(r.drop_last());
        assert(words_scan(p).0 + prev.0.push(prev.1) =~= (words_scan(p).0 + prev.0).push(prev.1));
    }
}

/// The words of two texts joined by a space are the words of the first
/// followed by the words of the second.
pub proof fn lemma_words_join(a: Seq<char>, b: Seq<char>)
    ensures
        words(a + seq![' '] + b) == words(a) + words(b),
{
    let p = a.push(' ');
    assert(p.drop_last() =~= a);
    assert(is_space(' '));
    assert(words_scan(p).0 == words(a));
    assert(words_scan(p).1.len() == 0);
    assert(a + seq![' '] + b =~= p + b);
    lemma_words_scan_append(p, b);
    let sb = words_scan(b);
    if sb.1.len() > 0 {
        assert((words(a) + sb.0).push(sb.1) =~= words(a) + sb.0.push(sb.1));
    }
}

/// Reading a text with no whitespace only extends the word being read.
proof fn lemma_words_scan_no_space(w: Seq<char>)
    requires
        no_space(w),
    ensures
        words_scan(w) == (Seq::<Seq<char>>::empty(), w),
    decreases w.len(),
{
    if w.len() > 0 {
        let init = w.drop_last();
        assert(no_space(init)) by {
            assert forall|i: int| 0 <= i < init.len() implies !is_space(#[trigger] init[i]) by {
                assert(init[i] == w[i]);
            }
        }
        lemma_words_scan_no_space(init);
        assert(!is_space(w[w.len() - 1]));
        assert(init.push(w.last()) =~= w);
    } else {
        assert(w =~= Seq::<char>::empty());
    }
}

/// A non-empty text without whitespace is exactly one word: only
/// whitespace separates words.
pub proof fn lemma_one_word(w: Seq<char>)
    requires
        w.len() > 0,
        no_space(w),
    ensures
        words(w) == seq![w],
{
    lemma_words_scan_no_space(w);
    assert(Seq::<Seq<char>>::empty().push(w) =~= seq![w]);
}

/// A text of whitespace alone has no words.
pub proof fn lemma_only_spaces(s: Seq<char>)
    requires
        forall|i: int| 0 <= i < s.len() ==> is_space(#[trigger] s[i]),
    ensures
        words(s) == Seq::<Seq<char>>::empty(),
    decreases s.len(),
{
    if s.len() > 0 {
        let init = s.drop_last();
        assert forall|i: int| 0 <= i < init.len() implies is_space(#[trigger] init[i]) by {
            assert(init[i] == s[i]);
        }
        lemma_only_spaces(init);
        lemma_words_scan_shape(init);
        assert(is_space(s[s.len() - 1]));
        if words_scan(init).1.len() > 0 {
            assert(words(init).len() > 0);
        }
    }
}

/// Every whitespace character separates words: the words of two texts
/// joined by any whitespace character are the words of the first followed
/// by the words of the second.
pub proof fn lemma_words_split_at_space(a: Seq<char>, c: char, b: Seq<char>)
    requires
        is_space(c),
    ensures
        words(a + seq![c] + b) == words(a) + words(b),
{
    let p = a.push(c);
    assert(p.drop_last() =~= a);
    assert(words_scan(p).0 == words(a));
    assert(words_scan(p).1.len() == 0);
    assert(a + seq![c] + b =~= p + b);
    lemma_words_scan_append(p, b);
    let sb = words_scan(b);
    if sb.1.len() > 0 {
        assert((words(a) + sb.0).push(sb.1) =~= words(a) + sb.0.push(sb.1));
    }
}

} // verus!
