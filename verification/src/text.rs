//! Character-level helpers shared by the notification texts.

use vstd::prelude::*;
use vstd::string::StringExecFns;

verus! {

/// Appends one character to a `String` with `String::push`. Claims that the
/// string afterwards holds the characters it held, followed by `c`.
#[verifier::external_body]
pub(crate) fn push_char(s: &mut String, c: char)
    ensures
        final(s)@ == old(s)@.push(c),
{
    s.push(c);
}

/// The characters of `s`, in order.
pub fn chars_of(s: &str) -> (out: Vec<char>)
    ensures
        out@ == s@,
{
    let mut out: Vec<char> = Vec::new();
    for c in it: s.chars()
        invariant
            out@ == it.seq().take(it.index()),
    {
        out.push(c);
    }
    out
}

} // verus!

verus! {

/// Unicode `White_Space`, the property that `char::is_whitespace` tests.
pub open spec fn is_white_space(c: char) -> bool {
    let n = c as u32;
    ||| 0x09 <= n <= 0x0D
    ||| n == 0x20
    ||| n == 0x85
    ||| n == 0xA0
    ||| n == 0x1680
    ||| 0x2000 <= n <= 0x200A
    ||| n == 0x2028
    ||| n == 0x2029
    ||| n == 0x202F
    ||| n == 0x205F
    ||| n == 0x3000
}

/// Whether `c` is Unicode white space.
pub fn white_space(c: char) -> (b: bool)
    ensures
        b == is_white_space(c),
{
    let n = c as u32;
    (0x09 <= n && n <= 0x0D) || n == 0x20 || n == 0x85 || n == 0xA0 || n == 0x1680 || (0x2000
        <= n && n <= 0x200A) || n == 0x2028 || n == 0x2029 || n == 0x202F || n == 0x205F || n
        == 0x3000
}

/// A quote character: `'` or `"`.
pub open spec fn is_quote(c: char) -> bool {
    c == '\'' || c == '"'
}

/// Where the run of non-white-space characters of `s` that starts at `i` ends.
pub open spec fn plain_end(s: Seq<char>, i: int) -> int
    decreases s.len() - i,
{
    if i < 0 || i >= s.len() || is_white_space(s[i]) {
        i
    } else {
        plain_end(s, i + 1)
    }
}

/// The index of the first `q` in `s` at or after `i`, if there is one.
pub open spec fn find_from(s: Seq<char>, q: char, i: int) -> Option<int>
    decreases s.len() - i,
{
    if i < 0 || i >= s.len() {
        None
    } else if s[i] == q {
        Some(i)
    } else {
        find_from(s, q, i + 1)
    }
}

/// Where the argument that starts at `i` ends. An argument that starts with a
/// quote character, and has that character again later, runs past white space
/// up to it and then on to the next white space; any other argument ends at
/// the next white space.
pub open spec fn argument_end(s: Seq<char>, i: int) -> int {
    if 0 <= i < s.len() && is_quote(s[i]) {
        match find_from(s, s[i], i + 1) {
            Some(j) => plain_end(s, j + 1),
            None => plain_end(s, i),
        }
    } else {
        plain_end(s, i)
    }
}

/// A run ends at or after its start, and within the text.
pub proof fn lemma_plain_end(s: Seq<char>, i: int)
    requires
        0 <= i <= s.len(),
    ensures
        i <= plain_end(s, i) <= s.len(),
        i < s.len() && !is_white_space(s[i]) ==> i < plain_end(s, i),
        forall|k: int| i <= k < plain_end(s, i) ==> !is_white_space(#[trigger] s[k]),
        plain_end(s, i) < s.len() ==> is_white_space(s[plain_end(s, i)]),
    decreases s.len() - i,
{
    if i < s.len() && !is_white_space(s[i]) {
        lemma_plain_end(s, i + 1);
    }
}

/// The first `q` found is after `i`, within the text, and is `q`.
pub proof fn lemma_find_from(s: Seq<char>, q: char, i: int)
    requires
        0 <= i,
    ensures
        find_from(s, q, i) matches Some(j) ==> i <= j < s.len() && s[j] == q,
    decreases s.len() - i,
{
    if i < s.len() && s[i] != q {
        lemma_find_from(s, q, i + 1);
    }
}

/// An argument that starts at a character that is not white space is not
/// empty, lies within the text, and neither starts nor ends with white space.
pub proof fn lemma_argument_end(s: Seq<char>, i: int)
    requires
        0 <= i < s.len(),
        !is_white_space(s[i]),
    ensures
        i < argument_end(s, i) <= s.len(),
        !is_white_space(s[argument_end(s, i) - 1]),
        argument_end(s, i) < s.len() ==> is_white_space(s[argument_end(s, i)]),
{
    lemma_plain_end(s, i);
    if is_quote(s[i]) {
        lemma_find_from(s, s[i], i + 1);
        match find_from(s, s[i], i + 1) {
            Some(j) => {
                lemma_plain_end(s, j + 1);
                if plain_end(s, j + 1) > j + 1 {
                    assert(!is_white_space(s[plain_end(s, j + 1) - 1]));
                } else {
                    assert(s[j] == s[i]);
                }
            },
            None => {
                assert(!is_white_space(s[plain_end(s, i) - 1]));
            },
        }
    } else {
        assert(!is_white_space(s[plain_end(s, i) - 1]));
    }
}

/// The arguments of `s` from index `i` on.
pub open spec fn arguments_from(s: Seq<char>, i: int) -> Seq<Seq<char>>
    decreases s.len() - i,
{
    if i < 0 || i >= s.len() {
        seq![]
    } else if is_white_space(s[i]) {
        arguments_from(s, i + 1)
    } else {
        let e = argument_end(s, i);
        proof {
            lemma_argument_end(s, i);
        }
        seq![s.subrange(i, e)] + arguments_from(s, e)
    }
}

/// The arguments of a command line: its pieces separated by white space, in
/// order, except that a piece that starts with a quote character and closes
/// it later runs on to the closing quote (quotes stay in the piece).
pub open spec fn arguments(s: Seq<char>) -> Seq<Seq<char>> {
    arguments_from(s, 0)
}

/// Every argument is non-empty and neither starts nor ends with white space.
pub proof fn lemma_arguments_trimmed(s: Seq<char>, i: int)
    requires
        0 <= i,
    ensures
        forall|k: int|
            0 <= k < arguments_from(s, i).len() ==> #[trigger] arguments_from(s, i)[k].len() > 0
                && !is_white_space(arguments_from(s, i)[k][0]) && !is_white_space(
                arguments_from(s, i)[k].last(),
            ),
    decreases s.len() - i,
{
    if 0 <= i < s.len() {
        if is_white_space(s[i]) {
            lemma_arguments_trimmed(s, i + 1);
            assert(arguments_from(s, i) == arguments_from(s, i + 1));
        } else {
            let e = argument_end(s, i);
            lemma_argument_end(s, i);
            lemma_arguments_trimmed(s, e);
            let rest = arguments_from(s, e);
            let all = arguments_from(s, i);
            assert(all == seq![s.subrange(i, e)] + rest);
            assert(s.subrange(i, e)[0] == s[i]);
            assert(s.subrange(i, e).last() == s[e - 1]);
            assert forall|k: int| 0 <= k < all.len() implies #[trigger] all[k].len() > 0
                && !is_white_space(all[k][0]) && !is_white_space(all[k].last()) by {
                if k > 0 {
                    assert(all[k] == rest[k - 1]);
                }
            }
        }
    }
}

/// A command line of white space only has no arguments.
pub proof fn lemma_blank_has_no_arguments(s: Seq<char>, i: int)
    requires
        0 <= i,
        forall|k: int| 0 <= k < s.len() ==> is_white_space(#[trigger] s[k]),
    ensures
        arguments_from(s, i).len() == 0,
    decreases s.len() - i,
{
    if i < s.len() {
        lemma_blank_has_no_arguments(s, i + 1);
    }
}

/// Joining non-empty words that neither start nor end with white space gives
/// a text that starts with the first word's first character and ends with
/// the last word's last character.
pub proof fn lemma_joined_ends(ws: Seq<Seq<char>>)
    requires
        ws.len() > 0,
        forall|k: int| 0 <= k < ws.len() ==> #[trigger] ws[k].len() > 0,
    ensures
        joined(ws).len() > 0,
        joined(ws)[0] == ws[0][0],
        joined(ws).last() == ws.last().last(),
    decreases ws.len(),
{
    if ws.len() > 1 {
        let init = ws.drop_last();
        assert forall|k: int| 0 <= k < init.len() implies #[trigger] init[k].len() > 0 by {
            assert(init[k] == ws[k]);
        }
        lemma_joined_ends(init);
        assert(init[0] == ws[0]);
    }
}

/// Where the run of non-white-space characters from `i` ends.
fn run_end(chars: &Vec<char>, i: usize) -> (e: usize)
    requires
        i <= chars.len(),
    ensures
        e == plain_end(chars@, i as int),
{
    let mut k = i;
    while k < chars.len() && !white_space(chars[k])
        invariant
            i <= k <= chars.len(),
            plain_end(chars@, i as int) == plain_end(chars@, k as int),
        decreases chars.len() - k,
    {
        k = k + 1;
    }
    k
}

/// The index of the first `q` at or after `i`.
fn find_char(chars: &Vec<char>, q: char, i: usize) -> (r: Option<usize>)
    requires
        i <= chars.len(),
    ensures
        match r {
            Some(j) => find_from(chars@, q, i as int) == Some(j as int),
            None => find_from(chars@, q, i as int) is None,
        },
{
    let mut k = i;
    while k < chars.len()
        invariant
            i <= k <= chars.len(),
            find_from(chars@, q, i as int) == find_from(chars@, q, k as int),
        decreases chars.len() - k,
    {
        if chars[k] == q {
            return Some(k);
        }
        k = k + 1;
    }
    None
}

/// The arguments of the command line `chars`.
pub fn split_arguments(chars: &Vec<char>) -> (out: Vec<Vec<char>>)
    ensures
        out.deep_view() == arguments(chars@),
{
    let mut done: Vec<Vec<char>> = Vec::new();
    let n = chars.len();
    let mut i: usize = 0;
    while i < n
        invariant
            n == chars.len(),
            i <= n,
            arguments(chars@) == done.deep_view() + arguments_from(chars@, i as int),
        decreases n - i,
    {
        let c = chars[i];
        if white_space(c) {
            i = i + 1;
        } else {
            proof {
                lemma_find_from(chars@, c, i + 1);
            }
            let e: usize = if c == '\'' || c == '"' {
                match find_char(chars, c, i + 1) {
                    Some(j) => run_end(chars, j + 1),
                    None => run_end(chars, i),
                }
            } else {
                run_end(chars, i)
            };
            proof {
                lemma_argument_end(chars@, i as int);
            }
            let mut arg: Vec<char> = Vec::new();
            let mut k = i;
            while k < e
                invariant
                    i <= k <= e <= n,
                    n == chars.len(),
                    arg@ == chars@.subrange(i as int, k as int),
                decreases e - k,
            {
                arg.push(chars[k]);
                assert(chars@.subrange(i as int, k + 1) == chars@.subrange(i as int, k as int).push(
                    chars@[k as int],
                ));
                k = k + 1;
            }
            let ghost d0 = done.deep_view();
            let ghost w = arg@;
            done.push(arg);
            assert(done@.last().deep_view() =~= w);
            assert(done.deep_view() =~= d0.push(w));
            assert(d0 + arguments_from(chars@, i as int) == d0.push(w) + arguments_from(
                chars@,
                e as int,
            ));
            i = e;
        }
    }
    assert(done.deep_view() + arguments_from(chars@, n as int) == done.deep_view());
    done
}

} // verus!

verus! {

/// The words joined by single spaces (what `[String]::join(" ")` yields).
pub open spec fn joined(ws: Seq<Seq<char>>) -> Seq<char>
    decreases ws.len(),
{
    if ws.len() == 0 {
        seq![]
    } else if ws.len() == 1 {
        ws[0]
    } else {
        joined(ws.drop_last()) + seq![' '] + ws.last()
    }
}

/// Law: joining two non-empty lists of words is joining each, with one space
/// between; a single word is joined as itself, and no words give nothing.
pub proof fn law_joined_concat(a: Seq<Seq<char>>, b: Seq<Seq<char>>)
    ensures
        a.len() > 0 && b.len() > 0 ==> joined(a + b) == joined(a) + seq![' '] + joined(b),
        joined(Seq::<Seq<char>>::empty()) == Seq::<char>::empty(),
        a.len() == 1 ==> joined(a) == a[0],
    decreases b.len(),
{
    if a.len() > 0 && b.len() > 0 {
        if b.len() == 1 {
            assert((a + b).drop_last() == a);
            assert((a + b).last() == b[0]);
        } else {
            let b0 = b.drop_last();
            law_joined_concat(a, b0);
            assert((a + b).drop_last() == a + b0);
            assert((a + b).last() == b.last());
            assert(joined(b) == joined(b0) + seq![' '] + b.last());
        }
    }
}

/// The character sequences of a list of strings.
pub open spec fn views_of(parts: Seq<String>) -> Seq<Seq<char>> {
    parts.map_values(|s: String| s@)
}

/// Appends the characters of `cs` to `s`.
pub fn append_chars(s: &mut String, cs: &Vec<char>)
    ensures
        final(s)@ == old(s)@ + cs@,
{
    let n = cs.len();
    for i in 0..n
        invariant
            n == cs.len(),
            s@ == old(s)@ + cs@.take(i as int),
    {
        push_char(s, cs[i]);
        assert(cs@.take(i + 1) == cs@.take(i as int).push(cs@[i as int]));
    }
    assert(cs@.take(n as int) == cs@);
}

/// The strings of `parts` joined by single spaces.
pub fn join_strings(parts: &[String]) -> (res: String)
    ensures
        res@ == joined(views_of(parts@)),
{
    let mut res = String::new();
    let n = parts.len();
    for i in 0..n
        invariant
            n == parts@.len(),
            res@ == joined(views_of(parts@).take(i as int)),
    {
        assert(views_of(parts@).take(i + 1).drop_last() == views_of(parts@).take(i as int));
        if i > 0 {
            push_char(&mut res, ' ');
        }
        res.append(parts[i].as_str());
    }
    assert(views_of(parts@).take(n as int) == views_of(parts@));
    res
}

/// The words `ws[from..]` joined by single spaces.
pub fn join_words_from(ws: &Vec<Vec<char>>, from: usize) -> (res: String)
    requires
        from <= ws.len(),
    ensures
        res@ == joined(ws.deep_view().skip(from as int)),
{
    let mut res = String::new();
    let n = ws.len();
    for i in from..n
        invariant
            n == ws.len(),
            from <= i <= n,
            res@ == joined(ws.deep_view().subrange(from as int, i as int)),
    {
        assert(ws.deep_view().subrange(from as int, i + 1).drop_last() == ws.deep_view().subrange(
            from as int,
            i as int,
        ));
        if i > from {
            push_char(&mut res, ' ');
        }
        append_chars(&mut res, &ws[i]);
        assert(ws@[i as int].deep_view() =~= ws@[i as int]@);
    }
    assert(ws.deep_view().subrange(from as int, n as int) == ws.deep_view().skip(from as int));
    res
}

} // verus!

verus! {

/// The decimal digit `d` (for `d < 10`) as a character.
pub open spec fn digit_char(d: nat) -> char {
    (48 + d) as char
}

/// The decimal numeral of `n`, without leading zeros (`0` is `"0"`).
pub open spec fn decimal(n: nat) -> Seq<char>
    decreases n,
{
    if n < 10 {
        seq![digit_char(n)]
    } else {
        decimal(n / 10).push(digit_char(n % 10))
    }
}

/// The decimal numeral of a signed integer: a minus sign before the
/// magnitude when it is negative.
pub open spec fn signed_decimal(v: int) -> Seq<char> {
    if v < 0 {
        seq!['-'] + decimal((-v) as nat)
    } else {
        decimal(v as nat)
    }
}

/// Appends the decimal numeral of `n` to `s`.
pub fn push_decimal(s: &mut String, n: u64)
    ensures
        final(s)@ == old(s)@ + decimal(n as nat),
    decreases n,
{
    if n >= 10 {
        push_decimal(s, n / 10);
    }
    let d: u8 = (n % 10) as u8;
    push_char(s, (48u8 + d) as char);
}

/// Appends the decimal numeral of the signed integer `v` to `s`.
pub fn push_signed_decimal(s: &mut String, v: i32)
    ensures
        final(s)@ == old(s)@ + signed_decimal(v as int),
{
    if v < 0 {
        push_char(s, '-');
        let magnitude: i64 = -(v as i64);
        push_decimal(s, magnitude as u64);
        assert(s@ == old(s)@ + (seq!['-'] + decimal((-v) as nat)));
    } else {
        push_decimal(s, v as u64);
    }
}

} // verus!

verus! {

/// Whether `s` holds a white-space character.
pub open spec fn has_white_space(s: Seq<char>) -> bool {
    exists|i: int| 0 <= i < s.len() && is_white_space(#[trigger] s[i])
}

/// An argument as it is written into a command line: as it is, unless it
/// holds white space; then between double quotes when it holds a single
/// quote, between single quotes otherwise.
pub open spec fn quoted(arg: Seq<char>) -> Seq<char> {
    if has_white_space(arg) {
        let q = if arg.contains('\'') {
            '"'
        } else {
            '\''
        };
        seq![q] + arg + seq![q]
    } else {
        arg
    }
}

/// The command line of an argument list: each argument quoted as needed,
/// joined by single spaces.
pub open spec fn command_line(args: Seq<Seq<char>>) -> Seq<char> {
    joined(args.map_values(|a: Seq<char>| quoted(a)))
}

/// Appends `arg` to `s`, quoted as needed for a command line.
pub fn push_quoted(s: &mut String, arg: &str)
    ensures
        final(s)@ == old(s)@ + quoted(arg@),
{
    let chars = chars_of(arg);
    let n = chars.len();
    let mut needs_quotes = false;
    let mut has_single = false;
    for i in 0..n
        invariant
            n == chars@.len(),
            needs_quotes <==> exists|k: int| 0 <= k < i && is_white_space(#[trigger] chars@[k]),
            has_single <==> exists|k: int| 0 <= k < i && #[trigger] chars@[k] == '\'',
    {
        let c = chars[i];
        if white_space(c) {
            needs_quotes = true;
        }
        if c == '\'' {
            has_single = true;
        }
    }
    proof {
        assert(needs_quotes <==> has_white_space(arg@)) by {
            if has_white_space(arg@) {
                let k = choose|k: int| 0 <= k < n && is_white_space(#[trigger] arg@[k]);
                assert(is_white_space(chars@[k]));
            }
        }
        assert(has_single <==> arg@.contains('\'')) by {
            if arg@.contains('\'') {
                let k = choose|k: int| 0 <= k < n && arg@[k] == '\'';
                assert(chars@[k] == '\'');
            }
        }
    }
    if needs_quotes {
        let q = if has_single {
            '"'
        } else {
            '\''
        };
        push_char(s, q);
        append_chars(s, &chars);
        push_char(s, q);
        assert(s@ == old(s)@ + (seq![q] + arg@ + seq![q]));
    } else {
        append_chars(s, &chars);
    }
}

/// The command line of `args`: each argument quoted as needed, joined by
/// single spaces.
pub fn command_line_of(args: &[String]) -> (line: String)
    ensures
        line@ == command_line(views_of(args@)),
{
    let ghost quoted_args = views_of(args@).map_values(|a: Seq<char>| quoted(a));
    let mut line = String::new();
    let n = args.len();
    for i in 0..n
        invariant
            n == args@.len(),
            quoted_args == views_of(args@).map_values(|a: Seq<char>| quoted(a)),
            line@ == joined(quoted_args.take(i as int)),
    {
        assert(quoted_args.take(i + 1).drop_last() == quoted_args.take(i as int));
        if i > 0 {
            push_char(&mut line, ' ');
        }
        push_quoted(&mut line, args[i].as_str());
    }
    assert(quoted_args.take(n as int) == quoted_args);
    line
}

} // verus!
