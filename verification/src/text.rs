use vstd::prelude::*;

verus! {

// ---------------------------------------------------------------------------
// Numbers
// ---------------------------------------------------------------------------

/// The character of a decimal digit.
pub open spec fn digit_char(d: nat) -> char {
    if d == 0 {
        '0'
    } else if d == 1 {
        '1'
    } else if d == 2 {
        '2'
    } else if d == 3 {
        '3'
    } else if d == 4 {
        '4'
    } else if d == 5 {
        '5'
    } else if d == 6 {
        '6'
    } else if d == 7 {
        '7'
    } else if d == 8 {
        '8'
    } else {
        '9'
    }
}

/// The decimal notation of a natural number, without leading zeros.
pub open spec fn decimal(n: nat) -> Seq<char>
    decreases n,
{
    if n < 10 {
        seq![digit_char(n)]
    } else {
        decimal(n / 10).push(digit_char(n % 10))
    }
}

/// The decimal notation of an integer, with a leading `-` when negative.
pub open spec fn signed_decimal(n: int) -> Seq<char> {
    if n < 0 {
        seq!['-'] + decimal((-n) as nat)
    } else {
        decimal(n as nat)
    }
}

fn digit_of(d: u64) -> (c: char)
    requires
        d < 10,
    ensures
        c == digit_char(d as nat),
{
    if d == 0 {
        '0'
    } else if d == 1 {
        '1'
    } else if d == 2 {
        '2'
    } else if d == 3 {
        '3'
    } else if d == 4 {
        '4'
    } else if d == 5 {
        '5'
    } else if d == 6 {
        '6'
    } else if d == 7 {
        '7'
    } else if d == 8 {
        '8'
    } else {
        '9'
    }
}

/// Appends one character to a string by `String::push`; the contract claims
/// that the character ends up at the end and nothing else changes.
#[verifier::external_body]
fn push_char(s: &mut String, c: char)
    ensures
        final(s)@ == old(s)@.push(c),
{
    s.push(c);
}

/// Appends the decimal notation of `n`.
pub fn push_decimal(s: &mut String, n: u64)
    ensures
        final(s)@ == old(s)@ + decimal(n as nat),
    decreases n,
{
    if n >= 10 {
        push_decimal(s, n / 10);
    }
    push_char(s, digit_of(n % 10));
    proof {
        if n >= 10 {
            assert(decimal(n as nat) == decimal((n / 10) as nat).push(digit_char((n % 10) as nat)));
        }
    }
}

/// Appends the decimal notation of a signed number, as `{}` prints it.
pub fn push_signed_decimal(s: &mut String, n: i32)
    ensures
        final(s)@ == old(s)@ + signed_decimal(n as int),
{
    if n < 0 {
        push_char(s, '-');
        let m: i64 = n as i64;
        let a: u64 = (-m) as u64;
        push_decimal(s, a);
    } else {
        push_decimal(s, n as u64);
    }
}

/// The decimal notation of a process id.
pub fn u32_text(n: u32) -> (r: String)
    ensures
        r@ == decimal(n as nat),
{
    let mut s = String::new();
    push_decimal(&mut s, n as u64);
    s
}

// ---------------------------------------------------------------------------
// Padding and joining
// ---------------------------------------------------------------------------

/// `k` spaces.
pub open spec fn spaces(k: nat) -> Seq<char> {
    Seq::new(k, |i: int| ' ')
}

/// The text left-aligned in a field of `width` characters, as `{:<width}` prints it.
pub open spec fn pad_right(t: Seq<char>, width: nat) -> Seq<char> {
    if t.len() >= width {
        t
    } else {
        t + spaces((width - t.len()) as nat)
    }
}

/// Appends `t` left-aligned in a field of `width` characters.
pub fn push_padded(s: &mut String, t: &str, width: usize)
    ensures
        final(s)@ == old(s)@ + pad_right(t@, width as nat),
{
    s.append(t);
    let n = t.unicode_len();
    if n < width {
        let ghost before = s@;
        let mut k: usize = n;
        while k < width
            invariant
                n <= k <= width,
                s@ == before + spaces((k - n) as nat),
            decreases width - k,
        {
            push_char(s, ' ');
            k = k + 1;
            assert(s@ =~= before + spaces((k - n) as nat));
        }
    }
    proof {
        assert(final(s)@ =~= old(s)@ + pad_right(t@, width as nat)) by {
            if n < width {
                assert(pad_right(t@, width as nat) =~= t@ + spaces((width - n) as nat));
            }
        }
    }
}

/// The parts written one after another with `sep` between them.
pub open spec fn join(parts: Seq<Seq<char>>, sep: Seq<char>) -> Seq<char>
    decreases parts.len(),
{
    if parts.len() == 0 {
        seq![]
    } else if parts.len() == 1 {
        parts[0]
    } else {
        join(parts.drop_last(), sep) + sep + parts.last()
    }
}

/// Joins the strings with `sep` between them (`[String]::join`).
pub fn join_strings(parts: &Vec<String>, sep: &str) -> (r: String)
    ensures
        r@ == join(parts.deep_view(), sep@),
{
    let mut r = String::new();
    let ghost dv = parts.deep_view();
    let mut i: usize = 0;
    while i < parts.len()
        invariant
            i <= parts.len(),
            dv == parts.deep_view(),
            r@ == join(dv.take(i as int), sep@),
        decreases parts.len() - i,
    {
        if i != 0 {
            r.append(sep);
        }
        r.append(parts[i].as_str());
        proof {
            assert(dv.take((i + 1) as int).drop_last() =~= dv.take(i as int));
            assert(dv[i as int] == parts[i as int]@);
        }
        i = i + 1;
    }
    proof {
        assert(dv.take(parts.len() as int) =~= dv);
    }
    r
}

// ---------------------------------------------------------------------------
// Debug notation of strings
// ---------------------------------------------------------------------------

/// What `{:?}` prints for a string: the text in double quotes, with
/// special characters escaped.
pub uninterp spec fn debug_text(s: Seq<char>) -> Seq<char>;

/// A character that `{:?}` prints unchanged inside a string.
pub open spec fn plain_char(c: char) -> bool {
    ' ' <= c <= '~' && c != '"' && c != '\\'
}

/// Writes a string in the notation of `{:?}` (`<str as Debug>::fmt`).
/// The result is named `debug_text`; of it the contract states only that a
/// string of printable ASCII characters other than `"` and `\` comes out
/// between double quotes and otherwise unchanged. How other characters are
/// escaped is left unsaid.
#[verifier::external_body]
fn debug_quoted(s: &String) -> (r: String)
    ensures
        r@ == debug_text(s@),
        (forall|i: int| 0 <= i < s@.len() ==> plain_char(#[trigger] s@[i])) ==> r@ == seq!['"']
            + s@ + seq!['"'],
{
    format!("{:?}", s)
}

/// The text consists of characters that `{:?}` prints unchanged.
pub open spec fn plain_text(s: Seq<char>) -> bool {
    forall|i: int| 0 <= i < s.len() ==> plain_char(#[trigger] s[i])
}

/// The text between double quotes.
pub open spec fn quoted(s: Seq<char>) -> Seq<char> {
    seq!['"'] + s + seq!['"']
}

/// For each item of `items` made of plain characters only, `{:?}` prints it
/// between double quotes and otherwise unchanged.
pub open spec fn plain_items_quoted(items: Seq<Seq<char>>) -> bool {
    forall|i: int| 0 <= i < items.len() && plain_text(#[trigger] items[i]) ==> debug_text(items[i]) == quoted(items[i])
}

/// What `{:?}` prints for a list of strings.
pub open spec fn debug_list(items: Seq<Seq<char>>) -> Seq<char> {
    seq!['['] + join(items.map_values(|t: Seq<char>| debug_text(t)), seq![',', ' ']) + seq![']']
}

/// Writes a list of strings as `{:?}` prints a `Vec<String>`.
pub fn debug_list_text(items: &Vec<String>) -> (r: String)
    ensures
        r@ == debug_list(items.deep_view()),
        plain_items_quoted(items.deep_view()),
{
    let mut written: Vec<String> = Vec::new();
    let ghost dv = items.deep_view();
    let mut i: usize = 0;
    while i < items.len()
        invariant
            i <= items.len(),
            dv == items.deep_view(),
            written.deep_view() =~= dv.take(i as int).map_values(|t: Seq<char>| debug_text(t)),
            forall|j: int| 0 <= j < i && plain_text(#[trigger] dv[j]) ==> debug_text(dv[j]) == quoted(dv[j]),
        decreases items.len() - i,
    {
        let q = debug_quoted(&items[i]);
        let ghost before = written.deep_view();
        written.push(q);
        proof {
            assert(dv[i as int] == items[i as int]@);
            assert(dv.take((i + 1) as int).map_values(|t: Seq<char>| debug_text(t)) =~= before.push(
                debug_text(dv[i as int]),
            ));
            assert(written.deep_view() =~= before.push(q@));
            if plain_text(dv[i as int]) {
                assert(forall|m: int| 0 <= m < items[i as int]@.len() ==> plain_char(#[trigger] items[i as int]@[m]));
            }
        }
        i = i + 1;
    }
    let r = bracket_list(&written);
    proof {
        assert(dv.take(items.len() as int) =~= dv);
    }
    r
}

/// The items, already written out, between brackets and separated by `, `:
/// how `{:?}` lays out a list.
pub fn bracket_list(items: &Vec<String>) -> (r: String)
    ensures
        r@ == seq!['['] + join(items.deep_view(), seq![',', ' ']) + seq![']'],
{
    let inner = join_strings(items, ", ");
    let mut r = String::new();
    push_char(&mut r, '[');
    r.append(inner.as_str());
    push_char(&mut r, ']');
    proof {
        reveal_strlit(", ");
        assert(", "@ =~= seq![',', ' ']);
        assert(r@ =~= seq!['['] + inner@ + seq![']']);
    }
    r
}

// ---------------------------------------------------------------------------
// Splitting a command line
// ---------------------------------------------------------------------------

/// Unicode white space, as `char::is_whitespace` tells it.
pub open spec fn is_space(c: char) -> bool {
    ||| '\t' <= c <= '\r'
    ||| c == ' '
    ||| c == '\u{85}'
    ||| c == '\u{a0}'
    ||| c == '\u{1680}'
    ||| '\u{2000}' <= c <= '\u{200a}'
    ||| c == '\u{2028}'
    ||| c == '\u{2029}'
    ||| c == '\u{202f}'
    ||| c == '\u{205f}'
    ||| c == '\u{3000}'
}

/// Whether `c` is white space.
pub fn is_space_char(c: char) -> (r: bool)
    ensures
        r == is_space(c),
{
    ('\t' <= c && c <= '\r') || c == ' ' || c == '\u{85}' || c == '\u{a0}' || c == '\u{1680}'
        || ('\u{2000}' <= c && c <= '\u{200a}') || c == '\u{2028}' || c == '\u{2029}' || c
        == '\u{202f}' || c == '\u{205f}' || c == '\u{3000}'
}

/// The maximal runs of non-white-space characters of `s`, in order
/// (what `str::split_whitespace` yields).
pub open spec fn words(s: Seq<char>) -> Seq<Seq<char>>
    decreases s.len(),
{
    if s.len() == 0 {
        seq![]
    } else {
        let w = words(s.drop_last());
        let c = s.last();
        if is_space(c) {
            w
        } else if s.len() >= 2 && !is_space(s[s.len() - 2]) {
            w.drop_last().push(w.last().push(c))
        } else {
            w.push(seq![c])
        }
    }
}

proof fn lemma_words_nonempty(s: Seq<char>)
    requires
        s.len() > 0,
        !is_space(s.last()),
    ensures
        words(s).len() > 0,
    decreases s.len(),
{
    let w = words(s.drop_last());
    if s.len() >= 2 && !is_space(s[s.len() - 2]) {
        lemma_words_nonempty(s.drop_last());
    }
}

/// Splits a command line into its words.
pub fn split_words(line: &str) -> (r: Vec<String>)
    ensures
        r.deep_view() == words(line@),
{
    let n = line.unicode_len();
    let mut r: Vec<String> = Vec::new();
    let mut i: usize = 0;
    let mut in_word = false;
    while i < n
        invariant
            n == line@.len(),
            i <= n,
            r.deep_view() == words(line@.take(i as int)),
            in_word == (i > 0 && !is_space(line@[i - 1])),
        decreases n - i,
    {
        let c = line.get_char(i);
        let ghost pre = line@.take(i as int);
        let ghost cur = line@.take((i + 1) as int);
        assert(cur.drop_last() =~= pre);
        assert(cur.last() == c);
        if is_space_char(c) {
            in_word = false;
        } else if in_word {
            proof {
                assert(pre.last() == line@[i - 1]);
                lemma_words_nonempty(pre);
            }
            let mut last = r.pop().unwrap();
            push_char(&mut last, c);
            r.push(last);
            proof {
                assert(cur[cur.len() - 2] == line@[i - 1]);
                assert(r.deep_view() =~= words(cur));
            }
        } else {
            let mut w = String::new();
            push_char(&mut w, c);
            r.push(w);
            proof {
                if i > 0 {
                    assert(cur[cur.len() - 2] == line@[i - 1]);
                }
                assert(r.deep_view() =~= words(cur));
            }
            in_word = true;
        }
        i = i + 1;
    }
    proof {
        assert(line@.take(n as int) =~= line@);
    }
    r
}

} // verus!
