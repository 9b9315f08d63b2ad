//! Properties that hold across calls of the library's functions.

use crate::text::{
    byte_len, choice, decimal, digit_char, index_from, pair_from, is_boundary, is_digit, is_ws, join_words,
    long_words, padded_end, padded_start, parse_usize, read_digits, spaces, trimmed, words,
    lemma_byte_len_concat, lemma_byte_len_spaces,
};
use crate::text::{with_char_replaced, without_char};
use crate::shops::{
    after_first, collect_entries, kelco_page, mikro_princ_page, price_text, shop_entry, PageError, PartView,
    ShopKind,
};
use crate::cart::{kept_shops, with_last_quantity, with_last_set, ShopView};
use crate::html::{all_tags, all_with, attr_of, first_tag, first_with, node_has, subtree_end, NodeView};
use vstd::prelude::*;

verus! {

/// A text cut or padded to `n` bytes takes exactly `n` bytes, whichever
/// side it is aligned to.
pub proof fn law_padded_width(s: Seq<char>, n: nat)
    requires
        byte_len(s) > n ==> is_boundary(s, n as int),
    ensures
        byte_len(padded_end(s, n)) == n,
        byte_len(padded_start(s, n)) == n,
{
    if byte_len(s) <= n {
        lemma_byte_len_concat(s, spaces((n - byte_len(s)) as nat));
        lemma_byte_len_concat(spaces((n - byte_len(s)) as nat), s);
        lemma_byte_len_spaces((n - byte_len(s)) as nat);
    }
}

/// A column that already has its width comes out of `trunc_padd` unchanged,
/// so cutting or padding a second time changes nothing.
pub proof fn law_padded_end_idempotent(s: Seq<char>, n: nat)
    requires
        byte_len(s) > n ==> is_boundary(s, n as int),
    ensures
        padded_end(padded_end(s, n), n) == padded_end(s, n),
{
    law_padded_width(s, n);
    let t = padded_end(s, n);
    assert(t + spaces(0) =~= t);
}

/// A right-aligned column that already has its width comes out of
/// `trunc_padd_start` unchanged.
pub proof fn law_padded_start_idempotent(s: Seq<char>, n: nat)
    requires
        byte_len(s) > n ==> is_boundary(s, n as int),
    ensures
        padded_start(padded_start(s, n), n) == padded_start(s, n),
{
    law_padded_width(s, n);
    let t = padded_start(s, n);
    assert(spaces(0) + t =~= t);
}

/// A text that fits its column is kept whole: `trunc_padd` only adds
/// spaces after it, `trunc_padd_start` only before it.
pub proof fn law_padding_keeps_short_text(s: Seq<char>, n: nat)
    requires
        byte_len(s) <= n,
    ensures
        padded_end(s, n).take(s.len() as int) == s,
        padded_start(s, n).skip(padded_start(s, n).len() - s.len()) == s,
        forall|i: int| s.len() <= i < padded_end(s, n).len() ==> padded_end(s, n)[i] == ' ',
{
    assert(padded_end(s, n).take(s.len() as int) =~= s);
    assert(padded_start(s, n).skip(padded_start(s, n).len() - s.len()) =~= s);
}

/// `w` is a word: not empty, and without whitespace.
pub open spec fn is_word(w: Seq<char>) -> bool {
    w.len() > 0 && forall|i: int| 0 <= i < w.len() ==> !is_ws(#[trigger] w[i])
}

proof fn lemma_words_trailing_ws(s: Seq<char>, c: char)
    requires
        is_ws(c),
    ensures
        words(s.push(c)) == words(s),
{
    assert(s.push(c).drop_last() =~= s);
}

proof fn lemma_words_append_word(s: Seq<char>, w: Seq<char>)
    requires
        s.len() == 0 || is_ws(s.last()),
        is_word(w),
    ensures
        words(s + w) == words(s).push(w),
    decreases w.len(),
{
    let c = w.last();
    let init = w.drop_last();
    assert((s + w).drop_last() =~= s + init);
    assert((s + w).last() == c);
    if init.len() == 0 {
        assert(s + init =~= s);
        assert(w =~= seq![c]);
        if s.len() > 0 {
            assert((s + w)[(s + w).len() - 2] == s.last());
        }
    } else {
        assert(is_word(init)) by {
            assert forall|i: int| 0 <= i < init.len() implies !is_ws(#[trigger] init[i]) by {
                assert(init[i] == w[i]);
            }
        }
        lemma_words_append_word(s, init);
        assert((s + w)[(s + w).len() - 2] == w[w.len() - 2]);
        assert(words(s).push(init).update(words(s).len() as int, init.push(c)) =~= words(s).push(w)) by {
            assert(init.push(c) =~= w);
        }
    }
}

proof fn lemma_words_of_join(ws: Seq<Seq<char>>)
    requires
        forall|i: int| 0 <= i < ws.len() ==> is_word(#[trigger] ws[i]),
    ensures
        words(join_words(ws)) == ws,
    decreases ws.len(),
{
    if ws.len() == 0 {
    } else if ws.len() == 1 {
        assert(ws[0] =~= Seq::<char>::empty() + ws[0]);
        lemma_words_append_word(Seq::<char>::empty(), ws[0]);
        assert(words(Seq::<char>::empty()) =~= Seq::<Seq<char>>::empty());
        assert(Seq::<Seq<char>>::empty().push(ws[0]) =~= ws);
    } else {
        let init = ws.drop_last();
        lemma_words_of_join(init);
        let j = join_words(init);
        lemma_words_trailing_ws(j, ' ');
        assert(j + seq![' '] =~= j.push(' '));
        lemma_words_append_word(j.push(' '), ws.last());
        assert(init.push(ws.last()) =~= ws);
    }
}

proof fn lemma_words_are_words(s: Seq<char>)
    ensures
        forall|i: int| 0 <= i < words(s).len() ==> is_word(#[trigger] words(s)[i]),
        s.len() > 0 && !is_ws(s.last()) ==> words(s).len() > 0,
    decreases s.len(),
{
    if s.len() > 0 {
        let init = s.drop_last();
        lemma_words_are_words(init);
        let w = words(init);
        let c = s.last();
        if is_ws(c) {
        } else if s.len() >= 2 && !is_ws(s[s.len() - 2]) {
            assert(init.last() == s[s.len() - 2]);
            let nw = w.update(w.len() - 1, w.last().push(c));
            assert forall|i: int| 0 <= i < nw.len() implies is_word(#[trigger] nw[i]) by {
                if i == w.len() - 1 {
                    let x = w.last().push(c);
                    assert(is_word(w.last()));
                    assert forall|k: int| 0 <= k < x.len() implies !is_ws(#[trigger] x[k]) by {
                        if k < w.last().len() {
                            assert(x[k] == w.last()[k]);
                        }
                    }
                }
            }
        } else {
            let nw = w.push(seq![c]);
            assert forall|i: int| 0 <= i < nw.len() implies is_word(#[trigger] nw[i]) by {
                if i < w.len() {
                    assert(nw[i] == w[i]);
                }
            }
        }
    }
}

proof fn lemma_long_words_are_long(ws: Seq<Seq<char>>)
    requires
        forall|i: int| 0 <= i < ws.len() ==> is_word(#[trigger] ws[i]),
    ensures
        forall|i: int|
            0 <= i < long_words(ws).len() ==> is_word(#[trigger] long_words(ws)[i]) && byte_len(
                long_words(ws)[i],
            ) > 1,
    decreases ws.len(),
{
    if ws.len() > 0 {
        let init = ws.drop_last();
        assert forall|i: int| 0 <= i < init.len() implies is_word(#[trigger] init[i]) by {
            assert(init[i] == ws[i]);
        }
        lemma_long_words_are_long(init);
        let lw = long_words(init);
        if byte_len(ws.last()) > 1 {
            assert forall|i: int| 0 <= i < lw.push(ws.last()).len() implies is_word(#[trigger] lw.push(ws.last())[i]) && byte_len(lw.push(ws.last())[i]) > 1 by {
                if i < lw.len() {
                    assert(lw.push(ws.last())[i] == lw[i]);
                }
            }
        }
    }
}

proof fn lemma_long_words_all_long(ws: Seq<Seq<char>>)
    requires
        forall|i: int| 0 <= i < ws.len() ==> byte_len(#[trigger] ws[i]) > 1,
    ensures
        long_words(ws) == ws,
    decreases ws.len(),
{
    if ws.len() > 0 {
        let init = ws.drop_last();
        assert forall|i: int| 0 <= i < init.len() implies byte_len(#[trigger] init[i]) > 1 by {
            assert(init[i] == ws[i]);
        }
        lemma_long_words_all_long(init);
        assert(init.push(ws.last()) =~= ws);
    }
}

/// Collapsing whitespace twice gives what collapsing it once gives:
/// `trim_whitespace(trim_whitespace(s)) == trim_whitespace(s)`.
pub proof fn law_trimmed_idempotent(s: Seq<char>)
    ensures
        trimmed(trimmed(s)) == trimmed(s),
{
    let lw = long_words(words(s));
    lemma_words_are_words(s);
    lemma_long_words_are_long(words(s));
    lemma_words_of_join(lw);
    lemma_long_words_all_long(lw);
}

/// The words of a collapsed text are the words of more than one byte of
/// the original, in order, so no whitespace stands at its ends or twice in
/// a row.
pub proof fn law_trimmed_words(s: Seq<char>)
    ensures
        words(trimmed(s)) == long_words(words(s)),
{
    lemma_words_are_words(s);
    lemma_long_words_are_long(words(s));
    lemma_words_of_join(long_words(words(s)));
}

proof fn lemma_read_digits_concat(a: Seq<char>, b: Seq<char>, acc: nat)
    ensures
        read_digits(a + b, acc) == (match read_digits(a, acc) {
            Ok(x) => read_digits(b, x),
            Err(e) => Err(e),
        }),
    decreases a.len(),
{
    if a.len() == 0 {
        assert(a + b =~= b);
    } else {
        assert((a + b)[0] == a[0]);
        assert((a + b).drop_first() =~= a.drop_first() + b);
        let v = acc * 10 + (a[0] as nat - 48);
        if is_digit(a[0]) && v <= usize::MAX {
            lemma_read_digits_concat(a.drop_first(), b, v as nat);
        }
    }
}

proof fn lemma_digit_char(d: nat)
    requires
        d < 10,
    ensures
        is_digit(digit_char(d)),
        digit_char(d) as nat - 48 == d,
{
    assert(((d + 48) as char) as u32 == d + 48);
}

proof fn lemma_decimal_digits(n: nat)
    ensures
        decimal(n).len() > 0,
        forall|i: int| 0 <= i < decimal(n).len() ==> is_digit(#[trigger] decimal(n)[i]),
    decreases n,
{
    if n < 10 {
        lemma_digit_char(n);
    } else {
        lemma_decimal_digits(n / 10);
        lemma_digit_char(n % 10);
        let a = decimal(n / 10);
        assert forall|i: int| 0 <= i < decimal(n).len() implies is_digit(#[trigger] decimal(n)[i]) by {
            if i < a.len() {
                assert(decimal(n)[i] == a[i]);
            }
        }
    }
}

proof fn lemma_read_decimal(n: nat)
    requires
        n <= usize::MAX,
    ensures
        read_digits(decimal(n), 0) == Ok::<nat, crate::text::ChoiceError>(n),
    decreases n,
{
    if n < 10 {
        lemma_digit_char(n);
        let d = decimal(n);
        assert(d.drop_first() =~= Seq::<char>::empty());
        assert(read_digits(Seq::<char>::empty(), n) == Ok::<nat, crate::text::ChoiceError>(n));
    } else {
        lemma_read_decimal(n / 10);
        lemma_digit_char(n % 10);
        let tail = seq![digit_char(n % 10)];
        lemma_read_digits_concat(decimal(n / 10), tail, 0);
        assert(tail.drop_first() =~= Seq::<char>::empty());
        assert((n / 10) * 10 + n % 10 == n);
        assert(read_digits(Seq::<char>::empty(), n) == Ok::<nat, crate::text::ChoiceError>(n));
        assert(read_digits(tail, n / 10) == Ok::<nat, crate::text::ChoiceError>(n));
    }
}

/// The number written in front of an article in a listing, typed back on
/// a line of its own, chooses that article.
pub proof fn law_listed_number_chooses(v: nat, limit: nat)
    requires
        v < limit,
        v <= usize::MAX,
    ensures
        parse_usize(decimal(v)) == Ok::<nat, crate::text::ChoiceError>(v),
        choice(decimal(v) + seq!['\n'], limit) == Ok::<nat, crate::text::ChoiceError>(v),
{
    lemma_decimal_digits(v);
    lemma_read_decimal(v);
    let d = decimal(v);
    let line = d + seq!['\n'];
    assert(is_digit(d[0]));
    assert(forall|i: int| 0 <= i < d.len() ==> line[i] == d[i]);
    assert(index_from(line, '\n', 0) == Some(d.len() as int)) by {
        lemma_index_from_past_digits(line, d.len() as int, 0);
    }
    assert(is_digit(line[d.len() - 1]));
    assert(line.take(d.len() as int) =~= d);
}

proof fn lemma_index_from_past_digits(s: Seq<char>, p: int, i: int)
    requires
        0 <= i <= p < s.len(),
        s[p] == '\n',
        forall|j: int| 0 <= j < p ==> is_digit(#[trigger] s[j]),
    ensures
        index_from(s, '\n', i) == Some(p),
    decreases p - i,
{
    if i < p {
        assert(is_digit(s[i]));
        lemma_index_from_past_digits(s, p, i + 1);
    }
}

/// A price read off a page is a plain decimal text: it holds no comma.
pub proof fn law_price_has_no_comma(w: Seq<char>)
    ensures
        forall|i: int| 0 <= i < price_text(w).len() ==> price_text(w)[i] != ',',
{
}

proof fn lemma_all_with_front(
    d: Seq<NodeView>,
    lo: int,
    hi: int,
    tag: Seq<char>,
    attr: Seq<char>,
    value: Seq<char>,
)
    requires
        lo < hi,
    ensures
        all_with(d, lo, hi, tag, attr, value) == (if node_has(d[lo], tag, attr, value) {
            seq![lo] + all_with(d, lo + 1, hi, tag, attr, value)
        } else {
            all_with(d, lo + 1, hi, tag, attr, value)
        }),
    decreases hi - lo,
{
    if hi == lo + 1 {
        assert(all_with(d, lo, lo, tag, attr, value) =~= Seq::<int>::empty());
        assert(all_with(d, lo + 1, hi, tag, attr, value) =~= Seq::<int>::empty());
        assert(seq![lo] + Seq::<int>::empty() =~= seq![lo]);
        assert(Seq::<int>::empty().push(lo) =~= seq![lo]);
    } else {
        lemma_all_with_front(d, lo, hi - 1, tag, attr, value);
        let y = all_with(d, lo + 1, hi - 1, tag, attr, value);
        assert((seq![lo] + y).push(hi - 1) =~= seq![lo] + y.push(hi - 1));
    }
}

/// The first element of a scope that a query finds is the first of all
/// the elements that the same query lists (`find_by_class` and
/// `find_all_by_class` agree).
pub proof fn law_first_is_first_of_all(
    d: Seq<NodeView>,
    lo: int,
    hi: int,
    tag: Seq<char>,
    attr: Seq<char>,
    value: Seq<char>,
)
    ensures
        first_with(d, lo, hi, tag, attr, value) == (if all_with(d, lo, hi, tag, attr, value).len() > 0 {
            Some(all_with(d, lo, hi, tag, attr, value)[0])
        } else {
            None
        }),
    decreases hi - lo,
{
    if lo < hi {
        lemma_all_with_front(d, lo, hi, tag, attr, value);
        law_first_is_first_of_all(d, lo + 1, hi, tag, attr, value);
    }
}

/// A query that lists elements lists exactly the matching elements of its
/// range, each once, in document order.
pub proof fn law_all_lists_exactly_the_matches(
    d: Seq<NodeView>,
    lo: int,
    hi: int,
    tag: Seq<char>,
    attr: Seq<char>,
    value: Seq<char>,
)
    ensures
        forall|k: int|
            0 <= k < all_with(d, lo, hi, tag, attr, value).len() ==> lo <= #[trigger] all_with(
                d,
                lo,
                hi,
                tag,
                attr,
                value,
            )[k] < hi && node_has(d[all_with(d, lo, hi, tag, attr, value)[k]], tag, attr, value),
        forall|k: int, m: int|
            0 <= k < m < all_with(d, lo, hi, tag, attr, value).len() ==> #[trigger] all_with(
                d,
                lo,
                hi,
                tag,
                attr,
                value,
            )[k] < #[trigger] all_with(d, lo, hi, tag, attr, value)[m],
        forall|j: int|
            lo <= j < hi && node_has(#[trigger] d[j], tag, attr, value) ==> all_with(
                d,
                lo,
                hi,
                tag,
                attr,
                value,
            ).contains(j),
    decreases hi - lo,
{
    if lo < hi {
        law_all_lists_exactly_the_matches(d, lo, hi - 1, tag, attr, value);
        let rest = all_with(d, lo, hi - 1, tag, attr, value);
        let all = all_with(d, lo, hi, tag, attr, value);
        assert forall|k: int| 0 <= k < all.len() implies lo <= #[trigger] all[k] < hi && node_has(
            d[all[k]],
            tag,
            attr,
            value,
        ) by {
            if k < rest.len() {
                assert(all[k] == rest[k]);
            }
        }
        assert forall|k: int, m: int| 0 <= k < m < all.len() implies #[trigger] all[k] < #[trigger] all[m] by {
            assert(all[k] == rest[k]);
            if m < rest.len() {
                assert(all[m] == rest[m]);
            }
        }
        assert forall|j: int| lo <= j < hi && node_has(#[trigger] d[j], tag, attr, value) implies all.contains(j) by {
            if j < hi - 1 {
                let k = choose|k: int| 0 <= k < rest.len() && rest[k] == j;
                assert(all[k] == j);
            } else {
                assert(all[all.len() - 1] == j);
            }
        }
    }
}

/// Dropping no shop keeps all of them, in their order.
pub proof fn law_keep_all_when_none_removed(shops: Seq<ShopView>)
    ensures
        kept_shops(shops, Seq::<usize>::empty()) == shops,
    decreases shops.len(),
{
    if shops.len() > 0 {
        law_keep_all_when_none_removed(shops.drop_last());
        assert(shops.drop_last().push(shops.last()) =~= shops);
    }
}

/// The shops that stay are the shops at the positions not dropped: their
/// number is that of those positions, and dropping every position leaves
/// none.
pub proof fn law_kept_count(shops: Seq<ShopView>, removed: Seq<usize>)
    ensures
        kept_shops(shops, removed).len() <= shops.len(),
        (forall|i: usize| i < shops.len() ==> #[trigger] removed.contains(i)) ==> kept_shops(shops, removed).len() == 0,
        (forall|i: usize| i < shops.len() ==> !#[trigger] removed.contains(i)) ==> kept_shops(shops, removed) == shops,
    decreases shops.len(),
{
    if shops.len() > 0 {
        law_kept_count(shops.drop_last(), removed);
        if forall|i: usize| i < shops.len() ==> !#[trigger] removed.contains(i) {
            assert(!removed.contains((shops.len() - 1) as usize));
            assert(shops.drop_last().push(shops.last()) =~= shops);
        }
        if forall|i: usize| i < shops.len() ==> #[trigger] removed.contains(i) {
            assert(removed.contains((shops.len() - 1) as usize));
        }
    }
}

/// The position that `find_char` finds holds the character, and no
/// position between the start of the search and it does.
pub proof fn law_found_char_is_first(s: Seq<char>, c: char, i: int)
    requires
        index_from(s, c, i) is Some,
    ensures
        i <= index_from(s, c, i)->0 < s.len(),
        s[index_from(s, c, i)->0] == c,
        forall|j: int| i <= j < index_from(s, c, i)->0 ==> s[j] != c,
    decreases s.len() - i,
{
    if s[i] != c {
        law_found_char_is_first(s, c, i + 1);
    }
}

/// The position that `find_pair` finds holds the two characters.
pub proof fn law_found_pair_is_there(s: Seq<char>, a: char, b: char, i: int)
    requires
        pair_from(s, a, b, i) is Some,
    ensures
        i <= pair_from(s, a, b, i)->0 && pair_from(s, a, b, i)->0 + 1 < s.len(),
        s[pair_from(s, a, b, i)->0] == a,
        s[pair_from(s, a, b, i)->0 + 1] == b,
    decreases s.len() - i,
{
    if !(s[i] == a && s[i + 1] == b) {
        law_found_pair_is_there(s, a, b, i + 1);
    }
}

/// How many times `c` occurs in `s`.
pub open spec fn occurrences(s: Seq<char>, c: char) -> nat
    decreases s.len(),
{
    if s.len() == 0 {
        0
    } else {
        occurrences(s.drop_last(), c) + if s.last() == c {
            1nat
        } else {
            0nat
        }
    }
}

proof fn lemma_occurrences_push(s: Seq<char>, x: char, c: char)
    ensures
        occurrences(s.push(x), c) == occurrences(s, c) + if x == c {
            1nat
        } else {
            0nat
        },
{
    assert(s.push(x).drop_last() =~= s);
}

/// Dropping every `c` leaves no `c`, keeps every other character, and
/// shortens the text by the number of `c` it held.
proof fn lemma_without_char_counts(s: Seq<char>, c: char, e: char)
    ensures
        occurrences(without_char(s, c), c) == 0,
        e != c ==> occurrences(without_char(s, c), e) == occurrences(s, e),
        without_char(s, c).len() + occurrences(s, c) == s.len(),
    decreases s.len(),
{
    if s.len() > 0 {
        lemma_without_char_counts(s.drop_last(), c, e);
        if s.last() != c {
            lemma_occurrences_push(without_char(s.drop_last(), c), s.last(), c);
            lemma_occurrences_push(without_char(s.drop_last(), c), s.last(), e);
        }
    }
}

/// Turning every `from` into `to` adds the `from`s to the `to`s.
proof fn lemma_replaced_counts(s: Seq<char>, from: char, to: char)
    requires
        from != to,
    ensures
        occurrences(with_char_replaced(s, from, to), to) == occurrences(s, to) + occurrences(s, from),
        occurrences(with_char_replaced(s, from, to), from) == 0,
        with_char_replaced(s, from, to).len() == s.len(),
    decreases s.len(),
{
    if s.len() > 0 {
        lemma_replaced_counts(s.drop_last(), from, to);
        let r = with_char_replaced(s, from, to);
        assert(r.drop_last() =~= with_char_replaced(s.drop_last(), from, to));
    }
}

/// A page's price word as a number keeps one `.` for each decimal comma
/// and none of the thousands dots, so `1.500` becomes `1500` and
/// `1.234,50` becomes `1234.50`: the text loses one character per dot and
/// holds no comma.
pub proof fn law_price_dots_are_the_commas(w: Seq<char>)
    ensures
        occurrences(price_text(w), '.') == occurrences(w, ','),
        occurrences(price_text(w), ',') == 0,
        price_text(w).len() + occurrences(w, '.') == w.len(),
{
    let s = without_char(w, '.');
    lemma_without_char_counts(w, '.', ',');
    lemma_replaced_counts(s, ',', '.');
}

/// Reading one more result block after the blocks `xs`: an article that
/// the block describes comes after the articles of `xs`, a block that
/// describes none adds nothing, and a broken block stops the reading.
pub proof fn law_next_block_is_appended(kind: ShopKind, d: Seq<NodeView>, xs: Seq<int>, b: int, ps: Seq<PartView>)
    requires
        collect_entries(kind, d, xs) == Ok::<Seq<PartView>, PageError>(ps),
    ensures
        match shop_entry(kind, d, b) {
            Ok(Some(p)) => collect_entries(kind, d, xs.push(b)) == Ok::<Seq<PartView>, PageError>(ps.push(p)),
            Ok(None) => collect_entries(kind, d, xs.push(b)) == Ok::<Seq<PartView>, PageError>(ps),
            Err(e) => collect_entries(kind, d, xs.push(b)) == Err::<Seq<PartView>, PageError>(e),
        },
{
    assert(xs.push(b).drop_last() =~= xs);
}

/// Reading the blocks `xs` and then the blocks `ys` gives the articles of
/// `xs` followed by those of `ys`.
pub proof fn law_blocks_concatenate(
    kind: ShopKind,
    d: Seq<NodeView>,
    xs: Seq<int>,
    ys: Seq<int>,
    ps: Seq<PartView>,
    qs: Seq<PartView>,
)
    requires
        collect_entries(kind, d, xs) == Ok::<Seq<PartView>, PageError>(ps),
        collect_entries(kind, d, ys) == Ok::<Seq<PartView>, PageError>(qs),
    ensures
        collect_entries(kind, d, xs + ys) == Ok::<Seq<PartView>, PageError>(ps + qs),
    decreases ys.len(),
{
    if ys.len() == 0 {
        assert(xs + ys =~= xs);
        assert(ps + qs =~= ps);
    } else {
        let ys0 = ys.drop_last();
        let b = ys.last();
        assert(ys0.push(b) =~= ys);
        match collect_entries(kind, d, ys0) {
            Ok(qs0) => {
                law_blocks_concatenate(kind, d, xs, ys0, ps, qs0);
                assert((xs + ys0).push(b) =~= xs + ys);
                law_next_block_is_appended(kind, d, xs + ys0, b, ps + qs0);
                law_next_block_is_appended(kind, d, ys0, b, qs0);
                match shop_entry(kind, d, b) {
                    Ok(Some(p)) => {
                        assert((ps + qs0).push(p) =~= ps + qs0.push(p));
                    },
                    _ => {},
                }
            },
            Err(e) => {},
        }
    }
}

/// Blocks that each describe an article give one article per block, in
/// block order.
pub proof fn law_one_article_per_block(kind: ShopKind, d: Seq<NodeView>, items: Seq<int>)
    requires
        forall|i: int| 0 <= i < items.len() ==> #[trigger] shop_entry(kind, d, items[i]) matches Ok(Some(_)),
    ensures
        match collect_entries(kind, d, items) {
            Ok(ps) => ps.len() == items.len() && forall|i: int|
                0 <= i < items.len() ==> #[trigger] shop_entry(kind, d, items[i]) == Ok::<
                    Option<PartView>,
                    PageError,
                >(Some(ps[i])),
            Err(_) => false,
        },
    decreases items.len(),
{
    if items.len() > 0 {
        let xs = items.drop_last();
        assert forall|i: int| 0 <= i < xs.len() implies #[trigger] shop_entry(kind, d, xs[i]) matches Ok(
            Some(_),
        ) by {
            assert(xs[i] == items[i]);
            assert(shop_entry(kind, d, items[i]) matches Ok(Some(_)));
        }
        law_one_article_per_block(kind, d, xs);
        assert(xs.push(items.last()) =~= items);
        assert(shop_entry(kind, d, items[items.len() - 1]) matches Ok(Some(_)));
        match collect_entries(kind, d, xs) {
            Ok(ps) => {
                law_next_block_is_appended(kind, d, xs, items.last(), ps);
                match shop_entry(kind, d, items.last()) {
                    Ok(Some(p)) => {
                        let qs = ps.push(p);
                        assert forall|i: int| 0 <= i < items.len() implies #[trigger] shop_entry(
                            kind,
                            d,
                            items[i],
                        ) == Ok::<Option<PartView>, PageError>(Some(qs[i])) by {
                            if i < xs.len() {
                                assert(xs[i] == items[i]);
                                assert(shop_entry(kind, d, xs[i]) == Ok::<Option<PartView>, PageError>(Some(ps[i])));
                            }
                        }
                    },
                    _ => {},
                }
            },
            Err(_) => {},
        }
    }
}

/// The rows read from a shop's table are all its rows but the first, the
/// header, in order.
pub proof fn law_header_row_is_skipped(rows: Seq<int>)
    ensures
        rows.len() == 0 ==> after_first(rows).len() == 0,
        rows.len() > 0 ==> after_first(rows).len() == rows.len() - 1 && forall|i: int|
            0 <= i < rows.len() - 1 ==> #[trigger] after_first(rows)[i] == rows[i + 1],
{
}

/// A Mikroprinc table whose rows after the header each describe an article
/// yields one article per such row, in row order.
pub proof fn law_mikro_princ_article_per_row(d: Seq<NodeView>, t: int)
    requires
        first_with(d, 0, d.len() as int, "div"@, "class"@, "products-table"@) == Some(t),
        all_tags(d, t, subtree_end(d, t), "tr"@).len() > 1,
        forall|i: int|
            1 <= i < all_tags(d, t, subtree_end(d, t), "tr"@).len() ==> #[trigger] shop_entry(
                ShopKind::MikroPrinc,
                d,
                all_tags(d, t, subtree_end(d, t), "tr"@)[i],
            ) matches Ok(Some(_)),
    ensures
        match mikro_princ_page(d) {
            Ok(Some(ps)) => ps.len() == all_tags(d, t, subtree_end(d, t), "tr"@).len() - 1 && forall|i: int|
                1 <= i < all_tags(d, t, subtree_end(d, t), "tr"@).len() ==> shop_entry(
                    ShopKind::MikroPrinc,
                    d,
                    #[trigger] all_tags(d, t, subtree_end(d, t), "tr"@)[i],
                ) == Ok::<Option<PartView>, PageError>(Some(ps[i - 1])),
            _ => false,
        },
{
    let rows = all_tags(d, t, subtree_end(d, t), "tr"@);
    let body = after_first(rows);
    law_header_row_is_skipped(rows);
    assert forall|i: int| 0 <= i < body.len() implies #[trigger] shop_entry(ShopKind::MikroPrinc, d, body[i]) matches Ok(
        Some(_),
    ) by {
        assert(body[i] == rows[i + 1]);
        assert(shop_entry(ShopKind::MikroPrinc, d, rows[i + 1]) matches Ok(Some(_)));
    }
    law_one_article_per_block(ShopKind::MikroPrinc, d, body);
    match collect_entries(ShopKind::MikroPrinc, d, body) {
        Ok(ps) => {
            assert forall|i: int| 1 <= i < rows.len() implies shop_entry(ShopKind::MikroPrinc, d, #[trigger] rows[i])
                == Ok::<Option<PartView>, PageError>(Some(ps[i - 1])) by {
                assert(body[i - 1] == rows[i]);
                assert(shop_entry(ShopKind::MikroPrinc, d, body[i - 1]) == Ok::<Option<PartView>, PageError>(
                    Some(ps[i - 1]),
                ));
            }
        },
        Err(_) => {},
    }
}

/// A Kelco result list whose blocks each describe an article yields one
/// article per block, in block order.
pub proof fn law_kelco_article_per_block(d: Seq<NodeView>, pl: int, row: int)
    requires
        first_with(d, 0, d.len() as int, "div"@, "class"@, "products_list"@) == Some(pl),
        first_with(d, pl, subtree_end(d, pl), "div"@, "class"@, "row"@) == Some(row),
        all_with(d, row, subtree_end(d, row), "div"@, "class"@, "asinItem"@).len() > 0,
        forall|i: int|
            0 <= i < all_with(d, row, subtree_end(d, row), "div"@, "class"@, "asinItem"@).len()
                ==> #[trigger] shop_entry(
                ShopKind::Kelco,
                d,
                all_with(d, row, subtree_end(d, row), "div"@, "class"@, "asinItem"@)[i],
            ) matches Ok(Some(_)),
    ensures
        match kelco_page(d) {
            Ok(Some(ps)) => ps.len() == all_with(d, row, subtree_end(d, row), "div"@, "class"@, "asinItem"@).len()
                && forall|i: int|
                0 <= i < ps.len() ==> shop_entry(
                    ShopKind::Kelco,
                    d,
                    all_with(d, row, subtree_end(d, row), "div"@, "class"@, "asinItem"@)[i],
                ) == Ok::<Option<PartView>, PageError>(Some(#[trigger] ps[i])),
            _ => false,
        },
{
    let items = all_with(d, row, subtree_end(d, row), "div"@, "class"@, "asinItem"@);
    law_one_article_per_block(ShopKind::Kelco, d, items);
}

/// The element that a search by tag finds is the first of its range with
/// that tag; when it finds none, no element of the range has the tag.
pub proof fn law_first_tag_is_first(d: Seq<NodeView>, lo: int, hi: int, tag: Seq<char>)
    ensures
        match first_tag(d, lo, hi, tag) {
            Some(k) => lo <= k < hi && d[k].tag == tag && forall|j: int| lo <= j < k ==> #[trigger] d[j].tag != tag,
            None => forall|j: int| lo <= j < hi ==> #[trigger] d[j].tag != tag,
        },
    decreases hi - lo,
{
    if lo < hi && d[lo].tag != tag {
        law_first_tag_is_first(d, lo + 1, hi, tag);
    }
}

/// The number of pieces of a part goes to the article chosen last: the
/// last basket entry gets it, every other entry and everything else about
/// the shop stays as it was.
pub proof fn law_quantity_goes_to_last_entry(v: ShopView, qty: nat)
    requires
        v.basket.len() > 0,
    ensures
        with_last_quantity(v.basket, qty).len() == v.basket.len(),
        with_last_quantity(v.basket, qty)[v.basket.len() - 1] == (v.basket[v.basket.len() - 1].0, qty),
        forall|i: int|
            0 <= i < v.basket.len() - 1 ==> #[trigger] with_last_quantity(v.basket, qty)[i] == v.basket[i],
        with_last_set(v, qty).basket == with_last_quantity(v.basket, qty),
        with_last_set(v, qty).name == v.name,
        with_last_set(v, qty).shop == v.shop,
        with_last_set(v, qty).url == v.url,
{
}

/// A search that lists elements by tag lists exactly the elements of its
/// range with that tag, each once, in document order.
pub proof fn law_all_tags_lists_exactly_the_matches(d: Seq<NodeView>, lo: int, hi: int, tag: Seq<char>)
    ensures
        forall|k: int|
            0 <= k < all_tags(d, lo, hi, tag).len() ==> lo <= #[trigger] all_tags(d, lo, hi, tag)[k] < hi
                && d[all_tags(d, lo, hi, tag)[k]].tag == tag,
        forall|k: int, m: int|
            0 <= k < m < all_tags(d, lo, hi, tag).len() ==> #[trigger] all_tags(d, lo, hi, tag)[k]
                < #[trigger] all_tags(d, lo, hi, tag)[m],
        forall|j: int| lo <= j < hi && (#[trigger] d[j]).tag == tag ==> all_tags(d, lo, hi, tag).contains(j),
    decreases hi - lo,
{
    if lo < hi {
        law_all_tags_lists_exactly_the_matches(d, lo, hi - 1, tag);
        let rest = all_tags(d, lo, hi - 1, tag);
        let all = all_tags(d, lo, hi, tag);
        assert forall|k: int| 0 <= k < all.len() implies lo <= #[trigger] all[k] < hi && d[all[k]].tag == tag by {
            if k < rest.len() {
                assert(all[k] == rest[k]);
            }
        }
        assert forall|k: int, m: int| 0 <= k < m < all.len() implies #[trigger] all[k] < #[trigger] all[m] by {
            assert(all[k] == rest[k]);
            if m < rest.len() {
                assert(all[m] == rest[m]);
            }
        }
        assert forall|j: int| lo <= j < hi && (#[trigger] d[j]).tag == tag implies all.contains(j) by {
            if j < hi - 1 {
                let k = choose|k: int| 0 <= k < rest.len() && rest[k] == j;
                assert(all[k] == j);
            } else {
                assert(all[all.len() - 1] == j);
            }
        }
    }
}

/// The element that a search by tag finds is the first of those that the
/// listing by the same tag gives.
pub proof fn law_first_tag_heads_all_tags(d: Seq<NodeView>, lo: int, hi: int, tag: Seq<char>)
    ensures
        first_tag(d, lo, hi, tag) == (if all_tags(d, lo, hi, tag).len() > 0 {
            Some(all_tags(d, lo, hi, tag)[0])
        } else {
            None
        }),
{
    law_first_tag_is_first(d, lo, hi, tag);
    law_all_tags_lists_exactly_the_matches(d, lo, hi, tag);
    let all = all_tags(d, lo, hi, tag);
    match first_tag(d, lo, hi, tag) {
        Some(k) => {
            assert(d[k].tag == tag);
            assert(all.contains(k));
            let m = choose|m: int| 0 <= m < all.len() && all[m] == k;
            if m > 0 {
                assert(all[0] < all[m]);
                assert(d[all[0]].tag == tag);
            }
        },
        None => {
            if all.len() > 0 {
                assert(d[all[0]].tag == tag);
            }
        },
    }
}

/// An element's attribute is the value of the first attribute of that
/// name, as the page writes them; an element without one has none.
pub proof fn law_first_attribute_counts(attrs: Seq<(Seq<char>, Seq<char>)>, name: Seq<char>)
    ensures
        match attr_of(attrs, name) {
            Some(v) => exists|i: int|
                0 <= i < attrs.len() && attrs[i] == (name, v) && forall|j: int| 0 <= j < i ==> (#[trigger] attrs[j]).0 != name,
            None => forall|j: int| 0 <= j < attrs.len() ==> (#[trigger] attrs[j]).0 != name,
        },
    decreases attrs.len(),
{
    if attrs.len() > 0 {
        let rest = attrs.drop_first();
        law_first_attribute_counts(rest, name);
        if attrs[0].0 == name {
            assert(attrs[0] == (name, attrs[0].1));
        } else {
            match attr_of(rest, name) {
                Some(v) => {
                    let i = choose|i: int|
                        0 <= i < rest.len() && rest[i] == (name, v) && forall|j: int| 0 <= j < i ==> (#[trigger] rest[j]).0 != name;
                    assert(attrs[i + 1] == rest[i]);
                    assert forall|j: int| 0 <= j < i + 1 implies (#[trigger] attrs[j]).0 != name by {
                        if j > 0 {
                            assert(attrs[j] == rest[j - 1]);
                        }
                    }
                },
                None => {
                    assert forall|j: int| 0 <= j < attrs.len() implies (#[trigger] attrs[j]).0 != name by {
                        if j > 0 {
                            assert(attrs[j] == rest[j - 1]);
                        }
                    }
                },
            }
        }
    }
}

} // verus!
