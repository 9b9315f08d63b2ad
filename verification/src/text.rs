//! Text handling on Unicode scalar sequences: byte lengths of the UTF-8
//! encoding, fixed-width columns, and whitespace normalisation.

use vstd::prelude::*;

verus! {

/// Number of bytes that `c` takes in UTF-8.
pub open spec fn utf8_width(c: char) -> nat {
    if (c as u32) < 0x80 {
        1
    } else if (c as u32) < 0x800 {
        2
    } else if (c as u32) < 0x10000 {
        3
    } else {
        4
    }
}

/// Number of bytes of the UTF-8 encoding of `s` (what `str::len` returns).
pub open spec fn byte_len(s: Seq<char>) -> nat
    decreases s.len(),
{
    if s.len() == 0 {
        0
    } else {
        utf8_width(s[0]) + byte_len(s.drop_first())
    }
}

/// `m` spaces.
pub open spec fn spaces(m: nat) -> Seq<char> {
    Seq::new(m, |i: int| ' ')
}

/// The longest prefix of `s` whose encoding takes at most `n` bytes.
pub open spec fn bytes_prefix(s: Seq<char>, n: int) -> Seq<char>
    decreases s.len(),
{
    if s.len() == 0 || n < utf8_width(s[0]) {
        seq![]
    } else {
        seq![s[0]] + bytes_prefix(s.drop_first(), n - utf8_width(s[0]))
    }
}

/// Byte `n` of the encoding of `s` starts a character (or is its end).
pub open spec fn is_boundary(s: Seq<char>, n: int) -> bool {
    byte_len(bytes_prefix(s, n)) == n
}

/// `s` cut to its first `n` bytes, or filled up with spaces at the end to
/// `n` bytes.
pub open spec fn padded_end(s: Seq<char>, n: nat) -> Seq<char> {
    if byte_len(s) > n {
        bytes_prefix(s, n as int)
    } else {
        s + spaces((n - byte_len(s)) as nat)
    }
}

/// `s` cut to its first `n` bytes, or filled up with spaces at the start to
/// `n` bytes.
pub open spec fn padded_start(s: Seq<char>, n: nat) -> Seq<char> {
    if byte_len(s) > n {
        bytes_prefix(s, n as int)
    } else {
        spaces((n - byte_len(s)) as nat) + s
    }
}

/// Byte lengths add up over concatenation.
pub proof fn lemma_byte_len_concat(a: Seq<char>, b: Seq<char>)
    ensures
        byte_len(a + b) == byte_len(a) + byte_len(b),
    decreases a.len(),
{
    if a.len() == 0 {
        assert(a + b =~= b);
    } else {
        assert((a + b).drop_first() =~= a.drop_first() + b);
        lemma_byte_len_concat(a.drop_first(), b);
    }
}

/// Each space takes one byte.
pub proof fn lemma_byte_len_spaces(m: nat)
    ensures
        byte_len(spaces(m)) == m,
    decreases m,
{
    if m > 0 {
        assert(spaces(m).drop_first() =~= spaces((m - 1) as nat));
        lemma_byte_len_spaces((m - 1) as nat);
    }
}

/// `byte_len` is the length of vstd's UTF-8 encoding.
pub proof fn lemma_encode_len(s: Seq<char>)
    ensures
        vstd::utf8::encode_utf8(s).len() == byte_len(s),
    decreases s.len(),
{
    if s.len() > 0 {
        let v = s[0] as u32;
        vstd::utf8::char_is_scalar(s[0]);
        assert(vstd::utf8::encode_scalar(v).len() == utf8_width(s[0]));
        lemma_encode_len(s.drop_first());
    }
}

/// The byte length of a single character.
pub proof fn lemma_byte_len_single(c: char)
    ensures
        byte_len(seq![c]) == utf8_width(c),
{
    assert(seq![c].drop_first() =~= Seq::<char>::empty());
    assert(byte_len(Seq::<char>::empty()) == 0);
}

/// `bytes_prefix` taken after a prefix `s.take(k)` whose bytes fit.
proof fn lemma_bytes_prefix_step(s: Seq<char>, n: int, k: int)
    requires
        0 <= k < s.len(),
        byte_len(s.take(k + 1)) <= n,
    ensures
        bytes_prefix(s, n) == s.take(k + 1) + bytes_prefix(s.skip(k + 1), n - byte_len(s.take(k + 1))),
    decreases k,
{
    let t = s.drop_first();
    let w0 = utf8_width(s[0]);
    assert(s.take(k + 1) =~= seq![s[0]] + t.take(k));
    lemma_byte_len_concat(seq![s[0]], t.take(k));
    lemma_byte_len_single(s[0]);
    assert(bytes_prefix(s, n) == seq![s[0]] + bytes_prefix(t, n - w0));
    assert(t.skip(k) =~= s.skip(k + 1));
    if k == 0 {
        assert(t.take(0) =~= Seq::<char>::empty());
        assert(bytes_prefix(t, n - w0) == t.take(0) + bytes_prefix(t.skip(0), n - w0 - byte_len(t.take(0)))) by {
            assert(t.take(0) + bytes_prefix(t, n - w0) =~= bytes_prefix(t, n - w0));
            assert(t.skip(0) =~= t);
        }
    } else {
        lemma_bytes_prefix_step(t, n - w0, k - 1);
        assert(t.take(k - 1 + 1) =~= t.take(k));
        assert(t.skip(k - 1 + 1) =~= t.skip(k));
    }
    let rest = bytes_prefix(t.skip(k), n - w0 - byte_len(t.take(k)));
    assert(seq![s[0]] + (t.take(k) + rest) =~= (seq![s[0]] + t.take(k)) + rest);
}

/// Number of bytes that `c` takes in UTF-8 (`char::len_utf8`).
pub fn char_width(c: char) -> (w: usize)
    ensures
        w == utf8_width(c),
{
    let v = c as u32;
    if v < 0x80 {
        1
    } else if v < 0x800 {
        2
    } else if v < 0x10000 {
        3
    } else {
        4
    }
}

/// Number of characters of the longest prefix of `s` that fits in `n`
/// bytes, with the number of bytes it takes.
fn prefix_fitting(s: &str, n: usize) -> (res: (usize, usize))
    ensures
        res.0 <= s@.len(),
        s@.take(res.0 as int) == bytes_prefix(s@, n as int),
        res.1 == byte_len(s@.take(res.0 as int)),
        res.1 <= n,
{
    let len = s.unicode_len();
    let mut k: usize = 0;
    let mut acc: usize = 0;
    proof {
        assert(s@.take(0) =~= Seq::<char>::empty());
        assert(s@.skip(0) =~= s@);
    }
    while k < len
        invariant
            len == s@.len(),
            k <= len,
            acc <= n,
            acc == byte_len(s@.take(k as int)),
            bytes_prefix(s@, n as int) == s@.take(k as int) + bytes_prefix(s@.skip(k as int), n - acc),
        decreases len - k,
    {
        let w = char_width(s.get_char(k));
        if w > n - acc {
            proof {
                assert(s@.skip(k as int)[0] == s@[k as int]);
                assert(bytes_prefix(s@.skip(k as int), n - acc) =~= Seq::<char>::empty());
                assert(s@.take(k as int) + Seq::<char>::empty() =~= s@.take(k as int));
            }
            return (k, acc);
        }
        proof {
            assert(s@.take(k + 1) =~= s@.take(k as int) + seq![s@[k as int]]);
            lemma_byte_len_concat(s@.take(k as int), seq![s@[k as int]]);
            lemma_byte_len_single(s@[k as int]);
            lemma_bytes_prefix_step(s@, n as int, k as int);
        }
        acc = acc + w;
        k = k + 1;
    }
    proof {
        assert(s@.skip(k as int) =~= Seq::<char>::empty());
        assert(s@.take(k as int) + Seq::<char>::empty() =~= s@.take(k as int));
    }
    (k, acc)
}

/// `s` followed by `m` spaces.
fn append_spaces(s: String, m: usize) -> (out: String)
    ensures
        out@ == s@ + spaces(m as nat),
{
    let mut out = s;
    let mut i: usize = 0;
    proof {
        reveal_strlit(" ");
        assert(s@ + spaces(0) =~= s@);
    }
    while i < m
        invariant
            i <= m,
            out@ == s@ + spaces(i as nat),
            " "@ == seq![' '],
        decreases m - i,
    {
        out.append(" ");
        i = i + 1;
        assert(s@ + spaces(i as nat) =~= s@ + spaces((i - 1) as nat) + seq![' ']);
    }
    out
}

/// The first `n` bytes of `string`, or `string` filled up with spaces at
/// its end to `n` bytes: a left-aligned column of width `n`.
/// Cutting in the middle of a character is not allowed.
pub fn trunc_padd(string: &str, n: usize) -> (out: String)
    requires
        byte_len(string@) > n ==> is_boundary(string@, n as int),
    ensures
        out@ == padded_end(string@, n as nat),
        byte_len(out@) == n,
{
    proof {
        lemma_encode_len(string@);
    }
    let len = string.as_bytes().len();
    assert(len == byte_len(string@));
    if len > n {
        let (k, _) = prefix_fitting(string, n);
        let head = string.substring_char(0, k);
        assert(head@ =~= string@.take(k as int));
        head.to_owned()
    } else {
        proof {
            lemma_byte_len_concat(string@, spaces((n - len) as nat));
            lemma_byte_len_spaces((n - len) as nat);
        }
        append_spaces(string.to_owned(), n - len)
    }
}

/// The first `n` bytes of `string`, or `string` filled up with spaces at
/// its start to `n` bytes: a right-aligned column of width `n`.
/// Cutting in the middle of a character is not allowed.
pub fn trunc_padd_start(string: &str, n: usize) -> (out: String)
    requires
        byte_len(string@) > n ==> is_boundary(string@, n as int),
    ensures
        out@ == padded_start(string@, n as nat),
        byte_len(out@) == n,
{
    proof {
        lemma_encode_len(string@);
    }
    let len = string.as_bytes().len();
    assert(len == byte_len(string@));
    if len > n {
        let (k, _) = prefix_fitting(string, n);
        let head = string.substring_char(0, k);
        assert(head@ =~= string@.take(k as int));
        head.to_owned()
    } else {
        let mut out = append_spaces(String::new(), n - len);
        assert(Seq::<char>::empty() + spaces((n - len) as nat) =~= spaces((n - len) as nat));
        out.append(string);
        proof {
            lemma_byte_len_concat(spaces((n - len) as nat), string@);
            lemma_byte_len_spaces((n - len) as nat);
        }
        out
    }
}

/// The Unicode `White_Space` property, which `char::is_whitespace` tests.
pub open spec fn is_ws(c: char) -> bool {
    let v = c as u32;
    ||| 0x09 <= v <= 0x0D
    ||| v == 0x20
    ||| v == 0x85
    ||| v == 0xA0
    ||| v == 0x1680
    ||| 0x2000 <= v <= 0x200A
    ||| v == 0x2028
    ||| v == 0x2029
    ||| v == 0x202F
    ||| v == 0x205F
    ||| v == 0x3000
}

/// Whether `c` is whitespace (`char::is_whitespace`).
pub fn is_whitespace(c: char) -> (b: bool)
    ensures
        b == is_ws(c),
{
    let v = c as u32;
    (0x09 <= v && v <= 0x0D) || v == 0x20 || v == 0x85 || v == 0xA0 || v == 0x1680 || (0x2000 <= v
        && v <= 0x200A) || v == 0x2028 || v == 0x2029 || v == 0x202F || v == 0x205F || v == 0x3000
}

/// The maximal runs of non-whitespace characters of `s`, in order
/// (what `str::split_whitespace` yields).
pub open spec fn words(s: Seq<char>) -> Seq<Seq<char>>
    decreases s.len(),
{
    if s.len() == 0 {
        seq![]
    } else {
        let w = words(s.drop_last());
        let c = s.last();
        if is_ws(c) {
            w
        } else if s.len() >= 2 && !is_ws(s[s.len() - 2]) {
            w.update(w.len() - 1, w.last().push(c))
        } else {
            w.push(seq![c])
        }
    }
}

/// The views of a sequence of strings.
pub open spec fn string_views(v: Seq<String>) -> Seq<Seq<char>> {
    v.map_values(|w: String| w@)
}

/// The whitespace-separated words of `s`, in order (`str::split_whitespace`).
pub fn split_whitespace(s: &str) -> (res: Vec<String>)
    ensures
        string_views(res@) == words(s@),
{
    let len = s.unicode_len();
    let mut done: Vec<String> = Vec::new();
    let mut in_word = false;
    let mut start: usize = 0;
    let mut i: usize = 0;
    assert(s@.take(0) =~= Seq::<char>::empty());
    while i < len
        invariant
            len == s@.len(),
            i <= len,
            start <= i,
            in_word == (i > 0 && !is_ws(s@[i - 1])),
            words(s@.take(i as int)) == string_views(done@) + (if in_word {
                seq![s@.subrange(start as int, i as int)]
            } else {
                Seq::<Seq<char>>::empty()
            }),
            in_word ==> start < i,
        decreases len - i,
    {
        let c = s.get_char(i);
        let ghost t = s@.take(i + 1);
        assert(t.drop_last() =~= s@.take(i as int));
        assert(t.last() == c);
        if is_whitespace(c) {
            if in_word {
                let w = s.substring_char(start, i).to_owned();
                let ghost before = done@;
                done.push(w);
                assert(string_views(done@) =~= string_views(before) + seq![s@.subrange(start as int, i as int)]);
            }
            in_word = false;
            assert(string_views(done@) + Seq::<Seq<char>>::empty() =~= string_views(done@));
        } else {
            if in_word {
                assert(s@.subrange(start as int, i + 1) =~= s@.subrange(start as int, i as int).push(c));
                assert(t[t.len() - 2] == s@[i - 1]);
            } else {
                start = i;
                in_word = true;
                assert(s@.subrange(start as int, i + 1) =~= seq![c]);
            }
        }
        i = i + 1;
        assert(words(s@.take(i as int)) =~= string_views(done@) + (if in_word {
            seq![s@.subrange(start as int, i as int)]
        } else {
            Seq::<Seq<char>>::empty()
        }));
    }
    if in_word {
        let w = s.substring_char(start, len).to_owned();
        let ghost before = done@;
        done.push(w);
        assert(string_views(done@) =~= string_views(before) + seq![s@.subrange(start as int, len as int)]);
    }
    assert(s@.take(len as int) =~= s@);
    assert(string_views(done@) =~= words(s@));
    done
}

/// The words of `ws` that take more than one byte, in order.
pub open spec fn long_words(ws: Seq<Seq<char>>) -> Seq<Seq<char>>
    decreases ws.len(),
{
    if ws.len() == 0 {
        seq![]
    } else if byte_len(ws.last()) > 1 {
        long_words(ws.drop_last()).push(ws.last())
    } else {
        long_words(ws.drop_last())
    }
}

/// The words of `ws` joined by single spaces.
pub open spec fn join_words(ws: Seq<Seq<char>>) -> Seq<char>
    decreases ws.len(),
{
    if ws.len() == 0 {
        seq![]
    } else if ws.len() == 1 {
        ws[0]
    } else {
        join_words(ws.drop_last()) + seq![' '] + ws.last()
    }
}

/// What `trim_whitespace` makes of `s`: its words, without those of a single
/// byte, joined by single spaces.
pub open spec fn trimmed(s: Seq<char>) -> Seq<char> {
    join_words(long_words(words(s)))
}

/// Collapses the whitespace of `s`: keeps its words of more than one byte,
/// in order, joined by single spaces (words of one byte, such as a lone
/// letter or digit, are dropped).
pub fn trim_whitespace(s: &str) -> (res: String)
    ensures
        res@ == trimmed(s@),
{
    let ws = split_whitespace(s);
    let ghost wv = string_views(ws@);
    let mut out = String::new();
    let mut empty = true;
    let mut i: usize = 0;
    proof {
        reveal_strlit(" ");
        assert(wv.take(0) =~= Seq::<Seq<char>>::empty());
    }
    while i < ws.len()
        invariant
            i <= ws.len(),
            wv == string_views(ws@),
            wv.len() == ws.len(),
            " "@ == seq![' '],
            out@ == join_words(long_words(wv.take(i as int))),
            empty == (long_words(wv.take(i as int)).len() == 0),
        decreases ws.len() - i,
    {
        let w = ws[i].as_str();
        proof {
            lemma_encode_len(w@);
            assert(wv.take(i + 1).drop_last() =~= wv.take(i as int));
            assert(wv.take(i + 1).last() == w@);
        }
        if w.as_bytes().len() > 1 {
            let ghost lw = long_words(wv.take(i as int));
            if !empty {
                out.append(" ");
            }
            out.append(w);
            empty = false;
            proof {
                let nw = lw.push(w@);
                assert(nw.drop_last() =~= lw);
                assert(out@ =~= join_words(nw));
            }
        }
        i = i + 1;
    }
    assert(wv.take(ws.len() as int) =~= wv);
    out
}

/// The character at position `i` of `s`, as a text of its own.
fn char_at(s: &str, i: usize) -> (res: &str)
    requires
        i < s@.len() <= usize::MAX,
    ensures
        res@ == seq![s@[i as int]],
{
    let r = s.substring_char(i, i + 1);
    assert(r@ =~= seq![s@[i as int]]);
    r
}

/// `s` without the characters equal to `c`.
pub open spec fn without_char(s: Seq<char>, c: char) -> Seq<char>
    decreases s.len(),
{
    if s.len() == 0 {
        seq![]
    } else if s.last() == c {
        without_char(s.drop_last(), c)
    } else {
        without_char(s.drop_last(), c).push(s.last())
    }
}

/// `s` with every `from` turned into `to`.
pub open spec fn with_char_replaced(s: Seq<char>, from: char, to: char) -> Seq<char> {
    s.map_values(|x: char| if x == from { to } else { x })
}

/// `s` without the characters equal to `c` (`s.replace(c, "")`).
pub fn remove_char(s: &str, c: char) -> (res: String)
    ensures
        res@ == without_char(s@, c),
{
    let len = s.unicode_len();
    let mut out = String::new();
    let mut i: usize = 0;
    assert(s@.take(0) =~= Seq::<char>::empty());
    while i < len
        invariant
            len == s@.len(),
            i <= len,
            out@ == without_char(s@.take(i as int), c),
        decreases len - i,
    {
        let d = s.get_char(i);
        assert(s@.take(i + 1).drop_last() =~= s@.take(i as int));
        if d != c {
            out.append(char_at(s, i));
        }
        i = i + 1;
    }
    assert(s@.take(len as int) =~= s@);
    out
}

/// `s` with every `from` turned into the single character of `to`
/// (`s.replace(from, to)` for single characters).
pub fn replace_char(s: &str, from: char, to: &str) -> (res: String)
    requires
        to@.len() == 1,
    ensures
        res@ == with_char_replaced(s@, from, to@[0]),
{
    let len = s.unicode_len();
    let mut out = String::new();
    let mut i: usize = 0;
    while i < len
        invariant
            len == s@.len(),
            i <= len,
            to@.len() == 1,
            out@ =~= with_char_replaced(s@.take(i as int), from, to@[0]),
        decreases len - i,
    {
        let d = s.get_char(i);
        if d == from {
            out.append(to);
        } else {
            out.append(char_at(s, i));
        }
        i = i + 1;
    }
    assert(s@.take(len as int) =~= s@);
    out
}

/// The first position at or after `i` that holds `c`.
pub open spec fn index_from(s: Seq<char>, c: char, i: int) -> Option<int>
    decreases s.len() - i,
{
    if i < 0 || i >= s.len() {
        None
    } else if s[i] == c {
        Some(i)
    } else {
        index_from(s, c, i + 1)
    }
}

/// The first position at or after `i` where the two characters `a`, `b`
/// stand one after the other.
pub open spec fn pair_from(s: Seq<char>, a: char, b: char, i: int) -> Option<int>
    decreases s.len() - i,
{
    if i < 0 || i + 1 >= s.len() {
        None
    } else if s[i] == a && s[i + 1] == b {
        Some(i)
    } else {
        pair_from(s, a, b, i + 1)
    }
}

/// The first position at or after `from` that holds `c`.
pub fn find_char(s: &str, c: char, from: usize) -> (res: Option<usize>)
    ensures
        res is None <==> index_from(s@, c, from as int) is None,
        res matches Some(p) ==> index_from(s@, c, from as int) == Some(p as int),
        res matches Some(p) ==> from <= p < s@.len(),
{
    let len = s.unicode_len();
    let mut i = from;
    while i < len
        invariant
            len == s@.len(),
            from <= i,
            index_from(s@, c, from as int) == index_from(s@, c, i as int),
        decreases len - i,
    {
        if s.get_char(i) == c {
            return Some(i);
        }
        i = i + 1;
    }
    None
}

/// The first position at or after `from` where `a` is followed by `b`.
pub fn find_pair(s: &str, a: char, b: char, from: usize) -> (res: Option<usize>)
    ensures
        res is None <==> pair_from(s@, a, b, from as int) is None,
        res matches Some(p) ==> pair_from(s@, a, b, from as int) == Some(p as int),
        res matches Some(p) ==> from <= p && p + 1 < s@.len(),
{
    let len = s.unicode_len();
    let mut i = from;
    while i < len && len - i >= 2
        invariant
            len == s@.len(),
            from <= i,
            pair_from(s@, a, b, from as int) == pair_from(s@, a, b, i as int),
        decreases len - i,
    {
        if s.get_char(i) == a && s.get_char(i + 1) == b {
            return Some(i);
        }
        i = i + 1;
    }
    None
}

/// The second line of `s` (`s.lines().nth(1)`): lines end at `\n`, a `\r`
/// just before that `\n` is dropped, and a final `\n` starts no new line.
pub open spec fn second_line(s: Seq<char>) -> Option<Seq<char>> {
    match index_from(s, '\n', 0) {
        None => None,
        Some(p) => if p + 1 >= s.len() {
            None
        } else {
            match index_from(s, '\n', p + 1) {
                None => Some(s.subrange(p + 1, s.len() as int)),
                Some(q) => {
                    let l = s.subrange(p + 1, q);
                    if l.len() > 0 && l.last() == '\r' {
                        Some(l.drop_last())
                    } else {
                        Some(l)
                    }
                },
            }
        },
    }
}

/// The second line of `s`, if it has one (`s.lines().nth(1)`).
pub fn nth_line_1(s: &str) -> (res: Option<String>)
    ensures
        res matches Some(l) ==> second_line(s@) == Some(l@),
        res is None ==> second_line(s@) is None,
{
    let len = s.unicode_len();
    match find_char(s, '\n', 0) {
        None => None,
        Some(p) => {
            if p + 1 >= len {
                None
            } else {
                match find_char(s, '\n', p + 1) {
                    None => Some(s.substring_char(p + 1, len).to_owned()),
                    Some(q) => {
                        if q > p + 1 && s.get_char(q - 1) == '\r' {
                            let l = s.substring_char(p + 1, q - 1).to_owned();
                            assert(l@ =~= s@.subrange(p + 1, q as int).drop_last());
                            Some(l)
                        } else {
                            Some(s.substring_char(p + 1, q).to_owned())
                        }
                    },
                }
            }
        },
    }
}

/// The second piece of `s` split at the two-character separator `a b`
/// (`s.split("ab").nth(1)`).
pub open spec fn second_piece(s: Seq<char>, a: char, b: char) -> Option<Seq<char>> {
    match pair_from(s, a, b, 0) {
        None => None,
        Some(p) => match pair_from(s, a, b, p + 2) {
            None => Some(s.subrange(p + 2, s.len() as int)),
            Some(q) => Some(s.subrange(p + 2, q)),
        },
    }
}

/// The second piece of `s` split at the separator `a b`, if there is one.
pub fn nth_piece_1(s: &str, a: char, b: char) -> (res: Option<String>)
    ensures
        res matches Some(l) ==> second_piece(s@, a, b) == Some(l@),
        res is None ==> second_piece(s@, a, b) is None,
{
    let len = s.unicode_len();
    match find_pair(s, a, b, 0) {
        None => None,
        Some(p) => match find_pair(s, a, b, p + 2) {
            None => Some(s.substring_char(p + 2, len).to_owned()),
            Some(q) => Some(s.substring_char(p + 2, q).to_owned()),
        },
    }
}

/// What comes before the first `c` in `s`, or all of `s`
/// (`s.split(c).nth(0)`).
pub open spec fn before_char(s: Seq<char>, c: char) -> Seq<char> {
    match index_from(s, c, 0) {
        None => s,
        Some(p) => s.take(p),
    }
}

/// What comes before the first `c` in `s`, or all of `s`.
pub fn first_piece(s: &str, c: char) -> (res: String)
    ensures
        res@ == before_char(s@, c),
{
    match find_char(s, c, 0) {
        None => s.to_owned(),
        Some(p) => {
            let r = s.substring_char(0, p).to_owned();
            assert(r@ =~= s@.take(p as int));
            r
        },
    }
}

/// The first whitespace-separated word of `s`, if any
/// (`s.split_whitespace().nth(0)`).
pub open spec fn first_word_of(s: Seq<char>) -> Option<Seq<char>> {
    if words(s).len() > 0 {
        Some(words(s)[0])
    } else {
        None
    }
}

/// The first whitespace-separated word of `s`, if any.
pub fn first_word(s: &str) -> (res: Option<String>)
    ensures
        res matches Some(w) ==> first_word_of(s@) == Some(w@),
        res is None ==> first_word_of(s@) is None,
{
    let ws = split_whitespace(s);
    if ws.len() == 0 {
        None
    } else {
        let w = ws[0].clone();
        assert(string_views(ws@)[0] == ws@[0]@);
        Some(w)
    }
}

/// `s` without its first `n` bytes (`&s[n..]`), when byte `n` starts a
/// character or ends `s`.
pub open spec fn skip_bytes(s: Seq<char>, n: int) -> Option<Seq<char>> {
    if is_boundary(s, n) {
        Some(s.skip(bytes_prefix(s, n).len() as int))
    } else {
        None
    }
}

/// `s` without its first `n` bytes, if byte `n` starts a character or ends
/// `s`.
pub fn drop_bytes(s: &str, n: usize) -> (res: Option<String>)
    ensures
        res matches Some(r) ==> skip_bytes(s@, n as int) == Some(r@),
        res is None ==> skip_bytes(s@, n as int) is None,
{
    let (k, acc) = prefix_fitting(s, n);
    if acc == n {
        let len = s.unicode_len();
        let r = s.substring_char(k, len).to_owned();
        assert(r@ =~= s@.skip(k as int));
        Some(r)
    } else {
        None
    }
}

/// `a` followed by `b`.
pub fn concat_str(a: &str, b: &str) -> (res: String)
    ensures
        res@ == a@ + b@,
{
    let mut r = a.to_owned();
    r.append(b);
    r
}

/// `needle` occurs in `hay` at position `i`.
pub open spec fn occurs_at(hay: Seq<char>, needle: Seq<char>, i: int) -> bool {
    0 <= i && i + needle.len() <= hay.len() && hay.subrange(i, i + needle.len()) == needle
}

/// `needle` occurs somewhere in `hay` (`str::contains`).
pub open spec fn contains(hay: Seq<char>, needle: Seq<char>) -> bool {
    exists|i: int| occurs_at(hay, needle, i)
}

/// Whether `needle` occurs in `hay` at position `i`.
fn matches_at(hay: &str, needle: &str, i: usize) -> (b: bool)
    requires
        i + needle@.len() <= hay@.len(),
    ensures
        b == occurs_at(hay@, needle@, i as int),
{
    let n = needle.unicode_len();
    let h = hay.unicode_len();
    let mut k: usize = 0;
    while k < n
        invariant
            n == needle@.len(),
            h == hay@.len(),
            i + n <= hay@.len(),
            k <= n,
            forall|m: int| 0 <= m < k ==> hay@[i + m] == needle@[m],
        decreases n - k,
    {
        if hay.get_char(i + k) != needle.get_char(k) {
            assert(hay@.subrange(i as int, i + n)[k as int] != needle@[k as int]);
            return false;
        }
        k = k + 1;
    }
    assert(hay@.subrange(i as int, i + n) =~= needle@);
    true
}

/// Whether `needle` occurs somewhere in `hay` (`str::contains`).
pub fn str_contains(hay: &str, needle: &str) -> (b: bool)
    ensures
        b == contains(hay@, needle@),
{
    let h = hay.unicode_len();
    let n = needle.unicode_len();
    if n > h {
        return false;
    }
    if n == 0 {
        assert(hay@.subrange(0, 0) =~= needle@);
        assert(occurs_at(hay@, needle@, 0));
        return true;
    }
    let mut i: usize = 0;
    while i <= h - n
        invariant
            h == hay@.len(),
            n == needle@.len(),
            1 <= n <= h,
            i <= h - n + 1,
            forall|j: int| 0 <= j < i ==> !occurs_at(hay@, needle@, j),
        decreases h - n + 1 - i,
    {
        if matches_at(hay, needle, i) {
            return true;
        }
        i = i + 1;
    }
    false
}

/// The character of decimal digit `d`.
pub open spec fn digit_char(d: nat) -> char {
    (d + 48) as char
}

/// `n` written in decimal, without leading zeros.
pub open spec fn decimal(n: nat) -> Seq<char>
    decreases n,
{
    if n < 10 {
        seq![digit_char(n)]
    } else {
        decimal(n / 10) + seq![digit_char(n % 10)]
    }
}

/// The decimal digit `d` as a text.
fn digit_text(d: usize) -> (res: &'static str)
    requires
        d < 10,
    ensures
        res@ == seq![digit_char(d as nat)],
{
    proof {
        reveal_strlit("0");
        reveal_strlit("1");
        reveal_strlit("2");
        reveal_strlit("3");
        reveal_strlit("4");
        reveal_strlit("5");
        reveal_strlit("6");
        reveal_strlit("7");
        reveal_strlit("8");
        reveal_strlit("9");
    }
    if d == 0 {
        "0"
    } else if d == 1 {
        "1"
    } else if d == 2 {
        "2"
    } else if d == 3 {
        "3"
    } else if d == 4 {
        "4"
    } else if d == 5 {
        "5"
    } else if d == 6 {
        "6"
    } else if d == 7 {
        "7"
    } else if d == 8 {
        "8"
    } else {
        "9"
    }
}

/// `n` written in decimal (what `format!("{}", n)` gives).
pub fn to_decimal(n: usize) -> (res: String)
    ensures
        res@ == decimal(n as nat),
    decreases n,
{
    if n < 10 {
        digit_text(n).to_owned()
    } else {
        let mut s = to_decimal(n / 10);
        s.append(digit_text(n % 10));
        s
    }
}

/// Why a line is no choice from a list.
#[derive(Clone, Copy, Debug, PartialEq, Eq, Structural)]
pub enum ChoiceError {
    /// The line is empty.
    Empty,
    /// The line holds something else than a decimal number.
    InvalidDigit,
    /// The number does not fit in a `usize`.
    TooLarge,
    /// The number is not below the number of choices.
    OutOfRange,
}

/// The first line of `s` (`s.lines().nth(0)` of a non-empty `s`).
pub open spec fn first_line(s: Seq<char>) -> Seq<char> {
    match index_from(s, '\n', 0) {
        None => s,
        Some(p) => if p > 0 && s[p - 1] == '\r' {
            s.take(p - 1)
        } else {
            s.take(p)
        },
    }
}

/// `c` is an ASCII decimal digit.
pub open spec fn is_digit(c: char) -> bool {
    '0' <= c <= '9'
}

/// Reads the digits `ds` after the value `acc`, from the left, as
/// `usize::from_str` does: the first non-digit, or the first step past
/// `usize::MAX`, ends it with an error.
pub open spec fn read_digits(ds: Seq<char>, acc: nat) -> Result<nat, ChoiceError>
    decreases ds.len(),
{
    if ds.len() == 0 {
        Ok(acc)
    } else if !is_digit(ds[0]) {
        Err(ChoiceError::InvalidDigit)
    } else if acc * 10 + (ds[0] as nat - 48) > usize::MAX {
        Err(ChoiceError::TooLarge)
    } else {
        read_digits(ds.drop_first(), (acc * 10 + (ds[0] as nat - 48)) as nat)
    }
}

/// `s` as a `usize` (`s.parse::<usize>()`): an optional `+`, then decimal
/// digits.
pub open spec fn parse_usize(s: Seq<char>) -> Result<nat, ChoiceError> {
    if s.len() == 0 {
        Err(ChoiceError::Empty)
    } else if s[0] == '+' {
        if s.len() == 1 {
            Err(ChoiceError::InvalidDigit)
        } else {
            read_digits(s.drop_first(), 0)
        }
    } else {
        read_digits(s, 0)
    }
}

/// What answering `input` chooses from `limit` choices: the number on its
/// first line, when it is one below `limit`.
pub open spec fn choice(input: Seq<char>, limit: nat) -> Result<nat, ChoiceError> {
    match parse_usize(first_line(input)) {
        Err(e) => Err(e),
        Ok(v) => if v < limit {
            Ok(v)
        } else {
            Err(ChoiceError::OutOfRange)
        },
    }
}

/// Reads a choice among `limit` numbered items from a line of input: the
/// first line of `input` must be a decimal number below `limit`.
pub fn parse_choice(input: &str, limit: usize) -> (res: Result<usize, ChoiceError>)
    requires
        input@.len() > 0,
    ensures
        res matches Ok(v) ==> choice(input@, limit as nat) == Ok::<nat, ChoiceError>(v as nat),
        res matches Err(e) ==> choice(input@, limit as nat) == Err::<nat, ChoiceError>(e),
{
    let line: String = match find_char(input, '\n', 0) {
        None => input.to_owned(),
        Some(p) => {
            if p > 0 && input.get_char(p - 1) == '\r' {
                input.substring_char(0, p - 1).to_owned()
            } else {
                input.substring_char(0, p).to_owned()
            }
        },
    };
    assert(line@ =~= first_line(input@));
    let s = line.as_str();
    let len = s.unicode_len();
    if len == 0 {
        return Err(ChoiceError::Empty);
    }
    let mut i: usize = 0;
    if s.get_char(0) == '+' {
        if len == 1 {
            return Err(ChoiceError::InvalidDigit);
        }
        i = 1;
        assert(s@.skip(1) =~= s@.drop_first());
    } else {
        assert(s@.skip(0) =~= s@);
    }
    let mut acc: usize = 0;
    while i < len
        invariant
            len == s@.len(),
            i <= len,
            s@ == first_line(input@),
            parse_usize(s@) == read_digits(s@.skip(i as int), acc as nat),
        decreases len - i,
    {
        let c = s.get_char(i);
        assert(s@.skip(i as int)[0] == c);
        assert(s@.skip(i as int).drop_first() =~= s@.skip(i + 1));
        if !('0' <= c && c <= '9') {
            return Err(ChoiceError::InvalidDigit);
        }
        let d = (c as u32 - 48) as usize;
        match acc.checked_mul(10) {
            None => {
                return Err(ChoiceError::TooLarge);
            },
            Some(m) => match m.checked_add(d) {
                None => {
                    return Err(ChoiceError::TooLarge);
                },
                Some(v) => {
                    acc = v;
                },
            },
        }
        i = i + 1;
    }
    assert(s@.skip(len as int) =~= Seq::<char>::empty());
    if acc < limit {
        Ok(acc)
    } else {
        Err(ChoiceError::OutOfRange)
    }
}

} // verus!
