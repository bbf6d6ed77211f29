//! What holds of the handling of text: cutting, joining, numbers and order.
use vstd::prelude::*;
use crate::cable::numeric;
use crate::clock::{
    ends_in_day_offset, has_day_offset, has_digits, is_clock_with_day_offset,
    is_day_with_day_offset, is_moment_with_day_offset, moment_plus, nanos_between, not_ascii_letter,
    past_day_and_year, past_digits, past_fraction, past_half, past_minutes, past_spaces,
    past_year_end, seconds_after, starts_as_date, toward_zero, Moment,
};
use crate::command::{changes_the_host, Commands};
use crate::diskstate::{
    resource_list, resource_names, resource_of, resources_in, to_resource, to_trimmed,
    ResourceModel, SettingsModel,
};
use crate::fpga::{command_line, known_resources};
use crate::seqs::{
    distinct, first_where, lemma_distinct, lemma_filter_members, lemma_first_where,
};
use crate::text::{
    ascii_lower, ascii_lowered, contains_text, cuts, decimal, digit_char, is_digit, is_space, join,
    lines, not_blank, not_space, number, padded, parsed_number, path_join, pieces, replace_all,
    replace_first, signed_decimal, starts_with, text_le, trim, trim_end, trim_start, without_plus,
    without_prefixes, without_return, without_trailing, words, zero_padded, Cut,
};
use crate::util::{duration_phrase, time_left};

verus! {

/// No character of the text is one to cut at.
pub open spec fn is_whole(text: Seq<char>, cut: Cut) -> bool {
    forall|i: int| 0 <= i < text.len() ==> !cuts(cut, #[trigger] text[i])
}

proof fn lemma_pieces_exist(text: Seq<char>, cut: Cut)
    ensures
        pieces(text, cut).len() > 0,
    decreases text.len(),
{
    if text.len() > 0 {
        lemma_pieces_exist(text.drop_last(), cut);
    }
}

/// How text is cut: text without a separator is one piece, and what stands before and after a
/// separator is cut on its own. No piece holds a separator.
pub proof fn law_text_is_cut_at_every_separator(
    a: Seq<char>,
    c: char,
    b: Seq<char>,
    cut: Cut,
)
    ensures
        is_whole(a, cut) ==> pieces(a, cut) == seq![a],
        cuts(cut, c) ==> pieces(a.push(c) + b, cut) == pieces(a, cut) + pieces(b, cut),
        forall|i: int|
            0 <= i < pieces(a, cut).len() ==> is_whole(#[trigger] pieces(a, cut)[i], cut),
{
    if is_whole(a, cut) {
        lemma_one_piece(a, cut);
    }
    if cuts(cut, c) {
        lemma_pieces_add(a, c, b, cut);
    }
    lemma_pieces_whole(a, cut);
}

proof fn lemma_one_piece(a: Seq<char>, cut: Cut)
    requires
        is_whole(a, cut),
    ensures
        pieces(a, cut) == seq![a],
    decreases a.len(),
{
    if a.len() == 0 {
        assert(a =~= Seq::empty());
    } else {
        let rest = a.drop_last();
        assert forall|i: int| 0 <= i < rest.len() implies !cuts(cut, #[trigger] rest[i]) by {
            assert(rest[i] == a[i]);
        }
        lemma_one_piece(rest, cut);
        assert(!cuts(cut, a[a.len() - 1]));
        assert(rest.push(a.last()) =~= a);
        assert(pieces(a, cut) =~= seq![a]);
    }
}

proof fn lemma_pieces_add(a: Seq<char>, c: char, b: Seq<char>, cut: Cut)
    requires
        cuts(cut, c),
    ensures
        pieces(a.push(c) + b, cut) == pieces(a, cut) + pieces(b, cut),
    decreases b.len(),
{
    let all = a.push(c) + b;
    lemma_pieces_exist(a, cut);
    if b.len() == 0 {
        assert(all =~= a.push(c));
        assert(all.drop_last() =~= a);
        assert(pieces(all, cut) =~= pieces(a, cut) + pieces(b, cut));
    } else {
        let rest = b.drop_last();
        lemma_pieces_add(a, c, rest, cut);
        lemma_pieces_exist(rest, cut);
        assert(all.drop_last() =~= a.push(c) + rest);
        assert(all.last() == b.last());
        let left = pieces(a, cut);
        let right = pieces(rest, cut);
        let before = left + right;
        if cuts(cut, b.last()) {
            assert(before.push(Seq::empty()) =~= left + right.push(Seq::empty()));
        } else {
            assert(before.last() == right.last());
            assert(before.drop_last() =~= left + right.drop_last());
            assert(before.drop_last().push(before.last().push(b.last())) =~= left
                + right.drop_last().push(right.last().push(b.last())));
        }
    }
}

proof fn lemma_pieces_whole(a: Seq<char>, cut: Cut)
    ensures
        forall|i: int|
            0 <= i < pieces(a, cut).len() ==> is_whole(#[trigger] pieces(a, cut)[i], cut),
    decreases a.len(),
{
    if a.len() > 0 {
        let rest = a.drop_last();
        lemma_pieces_whole(rest, cut);
        lemma_pieces_exist(rest, cut);
        let before = pieces(rest, cut);
        let all = pieces(a, cut);
        assert forall|i: int| 0 <= i < all.len() implies is_whole(#[trigger] all[i], cut) by {
            if cuts(cut, a.last()) {
                if i < before.len() {
                    assert(all[i] == before[i]);
                }
            } else {
                if i < before.len() - 1 {
                    assert(all[i] == before[i]);
                } else {
                    assert(is_whole(before[before.len() - 1], cut));
                    assert(all[i] == before.last().push(a.last()));
                }
            }
        }
    }
}

/// Putting the pieces together again gives the text.
pub proof fn law_joined_pieces_are_the_text(text: Seq<char>, c: char)
    ensures
        join(pieces(text, Cut::At(c)), seq![c]) == text,
    decreases text.len(),
{
    let cut = Cut::At(c);
    let sep = seq![c];
    let all = pieces(text, cut);
    if text.len() == 0 {
        assert(text =~= Seq::empty());
    } else {
        let rest = text.drop_last();
        law_joined_pieces_are_the_text(rest, c);
        lemma_pieces_exist(rest, cut);
        let before = pieces(rest, cut);
        if text.last() == c {
            assert(all.drop_last() =~= before);
            assert(join(all, sep) =~= rest + sep + Seq::<char>::empty());
            assert(join(all, sep) =~= text);
        } else {
            let start = before.drop_last();
            assert(all.drop_last() =~= start);
            if before.len() == 1 {
                assert(join(before, sep) == before[0]);
                assert(all[0] =~= text);
            } else {
                assert(join(before, sep) == join(start, sep) + sep + before.last());
                assert(join(all, sep) == join(start, sep) + sep + before.last().push(text.last()));
                assert(join(all, sep) =~= rest.push(text.last()));
                assert(join(all, sep) =~= text);
            }
        }
    }
}

/// Words are what stands between spaces: a word alone is itself, and the words before and after a
/// space are found on their own. No word is empty or holds a space.
pub proof fn law_words_are_what_stands_between_spaces(a: Seq<char>, c: char, b: Seq<char>)
    ensures
        a.len() > 0 && is_whole(a, Cut::Space) ==> words(a) == seq![a],
        is_space(c) ==> words(a.push(c) + b) == words(a) + words(b),
        words(Seq::empty()) == Seq::<Seq<char>>::empty(),
        forall|i: int|
            0 <= i < words(a).len() ==> (#[trigger] words(a)[i]).len() > 0 && is_whole(
                words(a)[i],
                Cut::Space,
            ),
{
    law_text_is_cut_at_every_separator(a, c, b, Cut::Space);
    let pred = not_blank();
    reveal(Seq::filter);
    if a.len() > 0 && is_whole(a, Cut::Space) {
        crate::seqs::lemma_filter_all(seq![a], pred);
    }
    if is_space(c) {
        Seq::filter_distributes_over_add(pieces(a, Cut::Space), pieces(b, Cut::Space), pred);
    }
    let none = seq![Seq::<char>::empty()];
    assert(pieces(Seq::empty(), Cut::Space) == none);
    crate::seqs::lemma_filter_none(none, pred);
    let all = pieces(a, Cut::Space);
    lemma_filter_members(all, pred);
    assert forall|i: int| 0 <= i < words(a).len() implies (#[trigger] words(a)[i]).len() > 0
        && is_whole(words(a)[i], Cut::Space) by {
        assert(words(a).contains(words(a)[i]));
        let k = choose|k: int| 0 <= k < all.len() && all[k] == words(a)[i];
        assert(is_whole(all[k], Cut::Space));
    }
}

/// Lines end at line feeds, with or without a carriage return before them; what follows the last
/// one is a line if it is not empty.
pub proof fn law_lines_end_at_line_feeds(a: Seq<char>, b: Seq<char>)
    requires
        is_whole(a, Cut::At('\n')),
    ensures
        a.len() > 0 ==> lines(a) == seq![a],
        lines(Seq::empty()) == Seq::<Seq<char>>::empty(),
        lines(a.push('\n') + b) == seq![
            if a.len() > 0 && a.last() == '\r' {
                a.drop_last()
            } else {
                a
            },
        ] + lines(b),
{
    let cut = Cut::At('\n');
    law_text_is_cut_at_every_separator(a, '\n', b, cut);
    let f = |line: Seq<char>| without_return(line);
    let one = seq![a];
    assert(one.drop_last() =~= Seq::empty());
    assert(one.drop_last().map_values(f) =~= Seq::empty());
    if a.len() > 0 {
        assert(lines(a) =~= seq![a]);
    }
    let none = seq![Seq::<char>::empty()];
    assert(pieces(Seq::empty(), cut) == none);
    assert(none.drop_last().map_values(f) =~= Seq::empty());
    assert(lines(Seq::empty()) =~= Seq::empty());
    lemma_pieces_exist(b, cut);
    let right = pieces(b, cut);
    let all = one + right;
    assert(all.last() == right.last());
    assert(all.drop_last() =~= one + right.drop_last());
    assert(all.drop_last().map_values(f) =~= one.map_values(f) + right.drop_last().map_values(f));
    assert(one.map_values(f) =~= seq![without_return(a)]);
    assert(lines(a.push('\n') + b) =~= seq![without_return(a)] + lines(b));
}

proof fn lemma_trim_end(text: Seq<char>)
    ensures
        trim_end(text).len() <= text.len(),
        trim_end(text) == text.take(trim_end(text).len() as int),
        forall|i: int| trim_end(text).len() <= i < text.len() ==> is_space(#[trigger] text[i]),
        trim_end(text).len() > 0 ==> !is_space(trim_end(text).last()),
    decreases text.len(),
{
    if text.len() > 0 && is_space(text.last()) {
        let rest = text.drop_last();
        lemma_trim_end(rest);
        let n = trim_end(text).len() as int;
        assert(rest.take(n) =~= text.take(n));
        assert forall|i: int| n <= i < text.len() implies is_space(#[trigger] text[i]) by {
            if i < rest.len() {
                assert(rest[i] == text[i]);
            }
        }
    } else {
        assert(text.take(text.len() as int) =~= text);
    }
}

/// Trimming takes the spaces off both ends and nothing else.
pub proof fn law_trimming_takes_off_only_spaces(text: Seq<char>)
    ensures
        exists|a: int, b: int|
            {
                &&& 0 <= a <= b <= text.len()
                &&& trim(text) == #[trigger] text.subrange(a, b)
                &&& forall|i: int| 0 <= i < a ==> is_space(#[trigger] text[i])
                &&& forall|i: int| b <= i < text.len() ==> is_space(#[trigger] text[i])
            },
        trim(text).len() > 0 ==> !is_space(trim(text)[0]) && !is_space(trim(text).last()),
{
    let pred = not_space();
    let a = first_where(text, pred);
    lemma_first_where(text, pred);
    let start = trim_start(text);
    lemma_trim_end(start);
    let b = a + trim(text).len();
    assert(trim(text) =~= text.subrange(a, b));
    assert forall|i: int| 0 <= i < a implies is_space(#[trigger] text[i]) by {
        assert(!pred(text[i]));
    }
    assert forall|i: int| b <= i < text.len() implies is_space(#[trigger] text[i]) by {
        assert(start[i - a] == text[i]);
    }
    if trim(text).len() > 0 {
        assert(pred(text[a]));
        assert(trim(text)[0] == text[a]);
    }
}

/// Spaces, tabs and line ends are spaces; letters, digits and what else stands in names is not.
pub proof fn law_what_counts_as_a_space(c: char)
    ensures
        c == ' ' || c == '\t' || c == '\n' || c == '\r' ==> is_space(c),
        c == '\u{85}' || c == '\u{a0}' || c == '\u{1680}' || c == '\u{3000}' ==> is_space(c),
        '\u{2000}' <= c && c <= '\u{200a}' ==> is_space(c),
        '!' <= c && c <= '~' ==> !is_space(c),
        c == '\u{200b}' || c == '\u{feff}' ==> !is_space(c),
{
}

/// Only the twenty-six capital letters change when a text is put in lower case, each to its small
/// letter.
pub proof fn law_only_capital_letters_are_lowered(text: Seq<char>)
    ensures
        ascii_lowered(text).len() == text.len(),
        forall|i: int|
            0 <= i < text.len() ==> #[trigger] ascii_lowered(text)[i] as u32 == if 'A' <= text[i]
                && text[i] <= 'Z' {
                text[i] as u32 + 32
            } else {
                text[i] as u32 as int
            },
{
}

proof fn lemma_digits(n: nat)
    ensures
        decimal(n).len() > 0,
        forall|i: int| 0 <= i < decimal(n).len() ==> is_digit(#[trigger] decimal(n)[i]),
        number(decimal(n)) == n,
    decreases n,
{
    if n < 10 {
        let d = seq![digit_char(n as int)];
        assert(decimal(n) == d);
        assert(d.drop_last() =~= Seq::empty());
        assert(number(Seq::empty()) == 0);
        assert(digit_char(n as int) as u32 == 48 + n);
    } else {
        let rest = decimal(n / 10);
        lemma_digits(n / 10);
        let all = decimal(n);
        let last = digit_char((n % 10) as int);
        assert(all == rest.push(last));
        assert(all.drop_last() =~= rest);
        assert(last as u32 == 48 + n % 10);
        assert forall|i: int| 0 <= i < all.len() implies is_digit(#[trigger] all[i]) by {
            if i < rest.len() {
                assert(all[i] == rest[i]);
            }
        }
    }
}

/// A number that is written down reads as itself, with or without zeros in front of it.
pub proof fn law_a_written_number_reads_as_itself(n: nat, width: int)
    ensures
        parsed_number(decimal(n)) == Some(n),
        parsed_number(seq!['+'] + decimal(n)) == Some(n),
        parsed_number(zero_padded(n, width)) == Some(n),
        zero_padded(n, width).len() == if decimal(n).len() as int > width {
            decimal(n).len() as int
        } else {
            width
        },
{
    lemma_digits(n);
    let text = decimal(n);
    assert(is_digit(text[0]));
    assert(without_plus(text) == text);
    let plus = seq!['+'] + text;
    assert(plus.skip(1) =~= text);
    let zeros = crate::text::repeated('0', width - text.len());
    let wide = zero_padded(n, width);
    assert(wide == zeros + text);
    assert forall|i: int| 0 <= i < wide.len() implies is_digit(#[trigger] wide[i]) by {
        if i >= zeros.len() {
            assert(wide[i] == text[i - zeros.len()]);
        }
    }
    assert(is_digit(wide[0]));
    lemma_leading_zeros(zeros, text);
}

proof fn lemma_leading_zeros(zeros: Seq<char>, text: Seq<char>)
    requires
        forall|i: int| 0 <= i < zeros.len() ==> #[trigger] zeros[i] == '0',
    ensures
        number(zeros + text) == number(text),
    decreases zeros.len() + text.len(),
{
    let all = zeros + text;
    if text.len() > 0 {
        assert(all.drop_last() =~= zeros + text.drop_last());
        lemma_leading_zeros(zeros, text.drop_last());
    } else if zeros.len() > 0 {
        assert(all =~= zeros);
        assert(all.drop_last() =~= zeros.drop_last() + text);
        assert(zeros[zeros.len() - 1] == '0');
        lemma_leading_zeros(zeros.drop_last(), text);
        assert(text =~= Seq::empty());
    } else {
        assert(all =~= text);
    }
}

/// Text that is not a number is not read as one.
pub proof fn law_only_digits_are_a_number(text: Seq<char>, i: int)
    requires
        0 <= i < text.len(),
        !('0' <= text[i] && text[i] <= '9'),
        i > 0 || text[i] != '+',
    ensures
        parsed_number(text) is None,
        parsed_number(Seq::empty()) is None,
{
    let digits = without_plus(text);
    if text[0] == '+' {
        assert(digits[i - 1] == text[i]);
        assert(!is_digit(digits[i - 1]));
    } else {
        assert(!is_digit(digits[i]));
    }
}

/// A padded text is the text and spaces behind it, as wide as asked for or as it was.
pub proof fn law_padding_only_adds_spaces(text: Seq<char>, width: int)
    ensures
        padded(text, width).take(text.len() as int) == text,
        padded(text, width).len() == if text.len() as int > width {
            text.len() as int
        } else {
            width
        },
        forall|i: int|
            text.len() <= i < padded(text, width).len() ==> #[trigger] padded(text, width)[i] == ' ',
{
    assert(padded(text, width).take(text.len() as int) =~= text);
}

/// A text holds another exactly if it is what stands before it, the other, and what stands behind.
pub proof fn law_containing_means_standing_in_between(text: Seq<char>, part: Seq<char>)
    ensures
        contains_text(text, part) <==> exists|a: Seq<char>, b: Seq<char>| text == #[trigger] (a
            + part + b),
        starts_with(text, part) <==> exists|b: Seq<char>| text == #[trigger] (part + b),
{
    if contains_text(text, part) {
        let i = choose|i: int|
            0 <= i <= text.len() - part.len() && #[trigger] starts_with(text.skip(i), part);
        let a = text.take(i);
        let b = text.skip(i + part.len());
        assert(text.skip(i).take(part.len() as int) == part);
        assert(text =~= a + part + b) by {
            assert forall|k: int| 0 <= k < part.len() implies text[i + k] == part[k] by {
                assert(text.skip(i).take(part.len() as int)[k] == text[i + k]);
            }
        }
    }
    if exists|a: Seq<char>, b: Seq<char>| text == #[trigger] (a + part + b) {
        let (a, b) = choose|a: Seq<char>, b: Seq<char>| text == #[trigger] (a + part + b);
        let i = a.len() as int;
        assert(text.skip(i).take(part.len() as int) =~= part);
        assert(starts_with(text.skip(i), part));
    }
    if starts_with(text, part) {
        let b = text.skip(part.len() as int);
        assert(text.take(part.len() as int) == part);
        assert(text =~= part + b) by {
            assert(text =~= text.take(part.len() as int) + b);
        }
    }
    if exists|b: Seq<char>| text == #[trigger] (part + b) {
        let b = choose|b: Seq<char>| text == #[trigger] (part + b);
        assert(text.take(part.len() as int) =~= part);
    }
}

/// The text does not occur in `text` before `end`.
pub open spec fn is_not_before(text: Seq<char>, part: Seq<char>, end: int) -> bool {
    forall|i: int| 0 <= i < end ==> !#[trigger] starts_with(text.skip(i), part)
}

/// Replacing puts the new text where the old one was: at its first occurrence, or at that and every
/// one after it. What stands before stays, and so does text without the old one.
pub proof fn law_replacing_touches_only_what_it_replaces(
    a: Seq<char>,
    b: Seq<char>,
    from: Seq<char>,
    to: Seq<char>,
)
    requires
        from.len() > 0,
        is_not_before(a + from + b, from, a.len() as int),
    ensures
        replace_first(a + from + b, from, to) == a + to + b,
        replace_all(a + from + b, from, to) == a + to + replace_all(b, from, to),
    decreases a.len(),
{
    let text = a + from + b;
    if a.len() == 0 {
        assert(text =~= from + b);
        assert(text.take(from.len() as int) =~= from);
        assert(text.skip(from.len() as int) =~= b);
        assert(a + to + b =~= to + b);
        assert(a + to + replace_all(b, from, to) =~= to + replace_all(b, from, to));
    } else {
        let rest = a.skip(1);
        assert(text.skip(0) =~= text);
        assert(!starts_with(text.skip(0), from));
        assert(text.skip(1) =~= rest + from + b);
        assert(is_not_before(rest + from + b, from, rest.len() as int)) by {
            assert forall|i: int| 0 <= i < rest.len() implies !#[trigger] starts_with(
                (rest + from + b).skip(i),
                from,
            ) by {
                assert((rest + from + b).skip(i) =~= text.skip(i + 1));
                assert(!starts_with(text.skip(i + 1), from));
            }
        }
        law_replacing_touches_only_what_it_replaces(rest, b, from, to);
        assert(seq![text[0]] + (rest + to + b) =~= a + to + b);
        assert(seq![text[0]] + (rest + to + replace_all(b, from, to)) =~= a + to + replace_all(
            b,
            from,
            to,
        ));
    }
}

pub proof fn law_replacing_what_is_not_there_changes_nothing(
    text: Seq<char>,
    from: Seq<char>,
    to: Seq<char>,
)
    requires
        is_not_before(text, from, text.len() as int),
    ensures
        replace_first(text, from, to) == text,
        replace_all(text, from, to) == text,
    decreases text.len(),
{
    if text.len() > 0 && from.len() > 0 {
        let rest = text.skip(1);
        assert(text.skip(0) =~= text);
        assert(!starts_with(text.skip(0), from));
        assert(is_not_before(rest, from, rest.len() as int)) by {
            assert forall|i: int| 0 <= i < rest.len() implies !#[trigger] starts_with(
                rest.skip(i),
                from,
            ) by {
                assert(rest.skip(i) =~= text.skip(i + 1));
                assert(!starts_with(text.skip(i + 1), from));
            }
        }
        law_replacing_what_is_not_there_changes_nothing(rest, from, to);
        assert(seq![text[0]] + rest =~= text);
    }
}

/// A prefix is taken off as often as it is there, and a character off the end likewise.
pub proof fn law_what_is_taken_off_is_gone(text: Seq<char>, prefix: Seq<char>, c: char)
    ensures
        prefix.len() > 0 ==> !starts_with(without_prefixes(text, prefix), prefix),
        prefix.len() > 0 ==> without_prefixes(prefix + text, prefix) == without_prefixes(
            text,
            prefix,
        ),
        !starts_with(text, prefix) ==> without_prefixes(text, prefix) == text,
        without_trailing(text, c).len() > 0 ==> without_trailing(text, c).last() != c,
        without_trailing(text.push(c), c) == without_trailing(text, c),
        text.len() > 0 && text.last() != c ==> without_trailing(text, c) == text,
    decreases text.len(),
{
    if prefix.len() > 0 {
        let more = prefix + text;
        assert(more.take(prefix.len() as int) =~= prefix);
        assert(more.skip(prefix.len() as int) =~= text);
        if starts_with(text, prefix) {
            law_what_is_taken_off_is_gone(text.skip(prefix.len() as int), prefix, c);
        }
    }
    assert(text.push(c).drop_last() =~= text);
    if text.len() > 0 && text.last() == c {
        law_what_is_taken_off_is_gone(text.drop_last(), prefix, c);
    }
}

/// A name below a directory: the two with one slash between them.
pub proof fn law_a_path_has_one_slash_before_the_name(dir: Seq<char>, name: Seq<char>)
    ensures
        dir.len() > 0 && dir.last() != '/' ==> path_join(dir, name) == dir.push('/') + name,
        dir.len() > 0 && dir.last() == '/' ==> path_join(dir, name) == dir + name,
{
    reveal_strlit("/");
    assert(dir + "/"@ =~= dir.push('/'));
}

/// Texts are ordered by the first character in which they differ, and a beginning of a text comes
/// before it.
pub proof fn law_texts_are_ordered_by_their_first_difference(a: Seq<char>, b: Seq<char>, i: int)
    requires
        0 <= i <= a.len(),
        i <= b.len(),
        a.take(i) == b.take(i),
    ensures
        i == a.len() ==> text_le(a, b),
        i == b.len() && i < a.len() ==> !text_le(a, b),
        i < a.len() && i < b.len() && a[i] < b[i] ==> text_le(a, b),
        i < a.len() && i < b.len() && a[i] > b[i] ==> !text_le(a, b),
    decreases i,
{
    if i > 0 {
        assert(a[0] == a.take(i)[0] && b[0] == b.take(i)[0]);
        let x = a.skip(1);
        let y = b.skip(1);
        assert(x.take(i - 1) =~= y.take(i - 1)) by {
            assert forall|k: int| 0 <= k < i - 1 implies x[k] == y[k] by {
                assert(a[k + 1] == a.take(i)[k + 1] && b[k + 1] == b.take(i)[k + 1]);
            }
        }
        assert(text_le(a, b) == text_le(x, y));
        law_texts_are_ordered_by_their_first_difference(x, y, i - 1);
    }
}

/// A resource is in the list exactly if one of the parts between the commas names it.
pub proof fn law_every_part_of_a_list_is_a_resource(text: Seq<char>, resource: ResourceModel)
    ensures
        resource_list(text).contains(resource) <==> exists|i: int|
            {
                &&& 0 <= i < pieces(text, Cut::At(',')).len()
                &&& trim(#[trigger] pieces(text, Cut::At(','))[i]).len() > 0
                &&& resource == resource_of(trim(pieces(text, Cut::At(','))[i]))
            },
{
    let parts = pieces(text, Cut::At(','));
    let trimmed = parts.map_values(to_trimmed());
    let kept = trimmed.filter(not_blank());
    let all = resources_in(parts);
    assert(all == kept.map_values(to_resource()));
    lemma_distinct(all);
    lemma_filter_members(trimmed, not_blank());
    if all.contains(resource) {
        let k = choose|k: int| 0 <= k < all.len() && all[k] == resource;
        assert(kept.contains(kept[k]));
        let i = choose|i: int| 0 <= i < trimmed.len() && trimmed[i] == kept[k];
        assert(trim(parts[i]).len() > 0);
    }
    if exists|i: int|
        {
            &&& 0 <= i < parts.len()
            &&& trim(#[trigger] parts[i]).len() > 0
            &&& resource == resource_of(trim(parts[i]))
        } {
        let i = choose|i: int|
            {
                &&& 0 <= i < parts.len()
                &&& trim(#[trigger] parts[i]).len() > 0
                &&& resource == resource_of(trim(parts[i]))
            };
        assert(trimmed[i] == trim(parts[i]));
        assert(trimmed.contains(trim(parts[i])));
        assert(kept.contains(trim(parts[i])));
        let k = choose|k: int| 0 <= k < kept.len() && kept[k] == trim(parts[i]);
        assert(all[k] == resource);
    }
}

/// The host is recognised however its letters are written; any other name means a board, as it
/// stands.
pub proof fn law_the_host_is_recognised_in_any_case(text: Seq<char>)
    ensures
        resource_of(text) == ResourceModel::Host <==> {
            &&& text.len() == 4
            &&& text[0] == 'h' || text[0] == 'H'
            &&& text[1] == 'o' || text[1] == 'O'
            &&& text[2] == 's' || text[2] == 'S'
            &&& text[3] == 't' || text[3] == 'T'
        },
        resource_of(text) != ResourceModel::Host ==> resource_of(text) == ResourceModel::Fpga(text),
{
    reveal_strlit("host");
    let host = crate::diskstate::HOST_RESOURCE@;
    let a = ascii_lowered(text);
    let b = ascii_lowered(host);
    assert(b.len() == 4 && b[0] == 'h' && b[1] == 'o' && b[2] == 's' && b[3] == 't');
    assert forall|c: char, d: char|
        (d == 'h' || d == 'o' || d == 's' || d == 't') implies #[trigger] is_letter(c, d) == (
    ascii_lower(c) == d) by {
        lemma_letter(c, d);
    }
    if a == b {
        assert(a[0] == 'h' && a[1] == 'o' && a[2] == 's' && a[3] == 't');
        assert(is_letter(text[0], 'h') && is_letter(text[1], 'o') && is_letter(text[2], 's')
            && is_letter(text[3], 't'));
    }
    if text.len() == 4 && is_letter(text[0], 'h') && is_letter(text[1], 'o') && is_letter(
        text[2],
        's',
    ) && is_letter(text[3], 't') {
        assert(a =~= b);
    }
    if text.len() == 4 && (text[0] == 'h' || text[0] == 'H') && (text[1] == 'o' || text[1] == 'O')
        && (text[2] == 's' || text[2] == 'S') && (text[3] == 't' || text[3] == 'T') {
        assert(is_letter(text[0], 'h') && is_letter(text[1], 'o') && is_letter(text[2], 's')
            && is_letter(text[3], 't'));
    }
}

spec fn is_letter(c: char, d: char) -> bool {
    c == d || c as u32 + 32 == d as u32
}

proof fn lemma_letter(c: char, d: char)
    requires
        d == 'h' || d == 'o' || d == 's' || d == 't',
    ensures
        is_letter(c, d) == (ascii_lower(c) == d),
{
}

/// The time left is told in one unit, rounded toward zero: the number shown is the whole number of
/// units, and no larger unit fits. What has run out is told with a minus sign.
pub proof fn law_the_time_left_is_told_in_whole_units(secs: int)
    requires
        secs >= 0,
    ensures
        secs < 60 ==> duration_phrase(secs) == decimal(secs as nat) + "s"@,
        forall|n: nat|
            1 <= n < 60 && n * 60 <= secs < n * 60 + 60 ==> duration_phrase(secs) == #[trigger]
                decimal(n) + "m"@,
        forall|n: nat|
            1 <= n < 24 && n * 3600 <= secs < n * 3600 + 3600 ==> duration_phrase(secs)
                == #[trigger] decimal(n) + "h"@,
        forall|n: nat|
            1 <= n < 7 && n * 86_400 <= secs < n * 86_400 + 86_400 ==> duration_phrase(secs)
                == #[trigger] decimal(n) + "d"@,
        forall|n: nat|
            1 <= n && n * 604_800 <= secs < n * 604_800 + 604_800 && secs < 31_536_000
                ==> duration_phrase(secs) == #[trigger] decimal(n) + "w"@,
        forall|n: nat|
            1 <= n && n * 31_536_000 <= secs < n * 31_536_000 + 31_536_000 ==> duration_phrase(secs)
                == #[trigger] decimal(n) + "y"@,
        secs >= 1 ==> duration_phrase(-secs) == seq!['-'] + duration_phrase(secs),
{
    assert forall|n: nat|
        1 <= n && n * 31_536_000 <= secs < n * 31_536_000 + 31_536_000 implies duration_phrase(secs)
        == #[trigger] decimal(n) + "y"@ by {
        let days = secs / 86_400;
        assert(n * 365 <= days < n * 365 + 365);
        assert(days / 365 == n);
    }
    if secs >= 1 {
        assert forall|k: int, unit: Seq<char>| k >= 1 implies #[trigger] (signed_decimal(-k) + unit)
            =~= seq!['-'] + (signed_decimal(k) + unit) by {}
        assert(toward_zero(-secs, 60) == -toward_zero(secs, 60));
        assert(toward_zero(-secs, 3600) == -toward_zero(secs, 3600));
        assert(toward_zero(-secs, 86_400) == -toward_zero(secs, 86_400));
        assert(toward_zero(-secs, 604_800) == -toward_zero(secs, 604_800));
        if secs >= 31_536_000 {
            let days = toward_zero(secs, 86_400);
            assert(days >= 365);
            assert(toward_zero(-days, 365) == -toward_zero(days, 365));
            assert(toward_zero(days, 365) >= 1);
        }
    }
}

/// The time between two moments is the difference of their clocks, and adding it to the earlier one
/// gives the later one back, as long as neither lies in a leap second.
pub proof fn law_time_adds_up(a: Moment, secs: int, nanos: int)
    requires
        a.nanos < 1_000_000_000,
        0 <= nanos < 1_000_000_000,
        i64::MIN <= a.secs + secs,
        a.secs + secs + 1 <= i64::MAX,
    ensures
        ({
            let sum = moment_plus(a, secs, nanos);
            let b = Moment { secs: sum.0 as i64, nanos: sum.1 as u32 };
            &&& b.nanos < 1_000_000_000
            &&& b.secs * 1_000_000_000 + b.nanos == a.secs * 1_000_000_000 + a.nanos + secs
                * 1_000_000_000 + nanos
            &&& nanos_between(b, a) == secs * 1_000_000_000 + nanos
        }),
        seconds_after(a, secs).secs == a.secs + secs,
        seconds_after(a, secs).nanos == a.nanos,
{
}

/// Only what looks around does not need root.
pub proof fn law_only_looking_needs_no_root(command: Commands)
    ensures
        !changes_the_host(command) <==> command is Status || command is List || command is Post
            || command is Users || command is Check || command == (Commands::Discover { write: false }),
{
}

proof fn lemma_pieces_of_join(parts: Seq<Seq<char>>, c: char)
    requires
        parts.len() > 0,
        forall|i: int| 0 <= i < parts.len() ==> is_whole(#[trigger] parts[i], Cut::At(c)),
    ensures
        pieces(join(parts, seq![c]), Cut::At(c)) == parts,
    decreases parts.len(),
{
    let cut = Cut::At(c);
    if parts.len() == 1 {
        lemma_one_piece(parts[0], cut);
        assert(parts =~= seq![parts[0]]);
    } else {
        let rest = parts.drop_last();
        assert forall|i: int| 0 <= i < rest.len() implies is_whole(#[trigger] rest[i], cut) by {
            assert(rest[i] == parts[i]);
        }
        lemma_pieces_of_join(rest, c);
        let before = join(rest, seq![c]);
        assert(is_whole(parts[parts.len() - 1], cut));
        lemma_one_piece(parts.last(), cut);
        lemma_pieces_add(before, c, parts.last(), cut);
        assert(before + seq![c] + parts.last() =~= before.push(c) + parts.last());
        assert(rest + seq![parts.last()] =~= parts);
    }
}

proof fn lemma_trimmed_already(text: Seq<char>)
    requires
        text.len() > 0,
        !is_space(text[0]),
        !is_space(text.last()),
    ensures
        trim(text) == text,
{
    law_trimming_takes_off_only_spaces(text);
    let (a, b) = choose|a: int, b: int|
        {
            &&& 0 <= a <= b <= text.len()
            &&& trim(text) == #[trigger] text.subrange(a, b)
            &&& forall|i: int| 0 <= i < a ==> is_space(#[trigger] text[i])
            &&& forall|i: int| b <= i < text.len() ==> is_space(#[trigger] text[i])
        };
    if a > 0 {
        assert(is_space(text[0]));
    }
    if b < text.len() {
        assert(is_space(text[text.len() - 1]));
    }
    assert(text.subrange(a, b) =~= text);
}

proof fn lemma_distinct_already<A>(items: Seq<A>)
    requires
        items.no_duplicates(),
    ensures
        distinct(items) == items,
    decreases items.len(),
{
    if items.len() > 0 {
        let rest = items.drop_last();
        assert(rest.no_duplicates()) by {
            assert forall|i: int, j: int|
                0 <= i < rest.len() && 0 <= j < rest.len() && i != j implies rest[i] != rest[j] by {
                assert(items[i] != items[j]);
            }
        }
        lemma_distinct_already(rest);
        if rest.contains(items.last()) {
            let i = choose|i: int| 0 <= i < rest.len() && rest[i] == items.last();
            assert(items[i] != items[items.len() - 1]);
        }
        assert(rest.push(items.last()) =~= items);
    } else {
        assert(items =~= Seq::empty());
    }
}

/// A name that a board can be claimed by: not blank, without a comma, and not that of the host.
pub open spec fn is_usual_name(alias: Seq<char>) -> bool {
    &&& alias.len() > 0
    &&& !is_space(alias[0])
    &&& !is_space(alias.last())
    &&& is_whole(alias, Cut::At(','))
    &&& resource_of(alias) == ResourceModel::Fpga(alias)
}

/// The names of resources, written as a list, read as those resources again.
pub proof fn law_written_resources_read_as_themselves(resources: Seq<ResourceModel>)
    requires
        resources.len() > 0,
        resources.no_duplicates(),
        forall|i: int|
            0 <= i < resources.len() ==> (#[trigger] resources[i] matches ResourceModel::Fpga(alias)
                ==> is_usual_name(alias)),
    ensures
        resource_list(resource_names(resources)) == resources,
{
    reveal_strlit(",");
    reveal_strlit("host");
    let names = resources.map_values(crate::diskstate::to_name());
    assert(","@ =~= seq![',']);
    let host = crate::diskstate::HOST_RESOURCE@;
    assert(host[0] == 'h' && host.last() == 't' && host.len() == 4);
    law_the_host_is_recognised_in_any_case(host);
    assert forall|i: int| 0 <= i < names.len() implies is_whole(#[trigger] names[i], Cut::At(','))
        && names[i].len() > 0 && trim(names[i]) == names[i] && resource_of(names[i])
        == resources[i] by {
        assert(names[i] == crate::diskstate::name_of(resources[i]));
        if resources[i] == ResourceModel::Host {
            assert(host[1] == 'o' && host[2] == 's');
            lemma_trimmed_already(host);
        } else {
            lemma_trimmed_already(names[i]);
        }
    }
    lemma_pieces_of_join(names, ',');
    let trimmed = names.map_values(to_trimmed());
    assert(trimmed =~= names);
    assert(crate::seqs::every_item(trimmed, not_blank()));
    crate::seqs::lemma_filter_all(trimmed, not_blank());
    assert(resources_in(names) =~= resources);
    lemma_distinct_already(resources);
}

/// What a number in a device entry means.
pub proof fn law_a_device_number_is_read_as_written(text: Option<Seq<char>>, n: nat)
    ensures
        numeric(text) == Some(n) <==> (text matches Some(text) && parsed_number(trim(text)) == Some(n)
            && n <= 0xffff_ffff),
{
}

/// What can be named: the host and every board.
pub proof fn law_every_board_can_be_named(settings: SettingsModel, name: Seq<char>)
    ensures
        known_resources(settings).contains(name) <==> name == "host"@ || exists|b: int|
            0 <= b < settings.fpgas.len() && (#[trigger] settings.fpgas[b]).alias == name,
{
    let all = known_resources(settings);
    assert(all[0] == "host"@);
    if exists|b: int| 0 <= b < settings.fpgas.len() && (#[trigger] settings.fpgas[b]).alias == name {
        let b = choose|b: int|
            0 <= b < settings.fpgas.len() && (#[trigger] settings.fpgas[b]).alias == name;
        assert(all[b + 1] == name);
    }
    if all.contains(name) && name != "host"@ {
        let k = choose|k: int| 0 <= k < all.len() && all[k] == name;
        assert(settings.fpgas[k - 1].alias == name);
    }
}

/// The command line of a process is its arguments with spaces between them; a process that has none
/// is told by its number.
pub proof fn law_a_command_line_is_its_arguments(raw: Seq<char>, pid: u32)
    ensures
        command_line(None, pid) == "<pid "@ + decimal(pid as nat) + ">"@,
        ({
            let kept = without_trailing(raw, '\0');
            let shown = command_line(Some(raw), pid);
            &&& kept.len() == 0 ==> shown == "<pid "@ + decimal(pid as nat) + ">"@
            &&& kept.len() > 0 ==> shown.len() == kept.len() && forall|i: int|
                0 <= i < kept.len() ==> #[trigger] shown[i] == if kept[i] == '\0' {
                    ' '
                } else {
                    kept[i]
                }
        }),
{
}

/// The time left until a moment is the whole seconds until then.
pub proof fn law_the_time_left_is_the_seconds_until_then(timeout: Moment, now: Moment)
    requires
        timeout.nanos < 1_000_000_000,
        now.nanos < 1_000_000_000,
        timeout.secs > now.secs || (timeout.secs == now.secs && timeout.nanos >= now.nanos),
    ensures
        timeout.nanos >= now.nanos ==> time_left(timeout, now) == duration_phrase(
            timeout.secs - now.secs,
        ),
        timeout.nanos < now.nanos ==> time_left(timeout, now) == duration_phrase(
            timeout.secs - now.secs - 1,
        ),
{
}

/// The text ends in a time zone that is a day or more away: a sign, two digits for the hours that make
/// at least twenty-four, and what follows them.
pub open spec fn ends_a_day_away(text: Seq<char>, at: int) -> bool {
    &&& 0 <= at
    &&& text.len() - at == 5 || text.len() - at == 6
    &&& text[at] == '+' || text[at] == '-'
    &&& '0' <= text[at + 1] && text[at + 1] <= '9'
    &&& '0' <= text[at + 2] && text[at + 2] <= '9'
    &&& text[at + 1] > '2' || (text[at + 1] == '2' && text[at + 2] >= '4')
}

/// No other text is refused for its time zone.
pub proof fn law_only_zones_a_day_away_are_refused(text: Seq<char>)
    requires
        has_day_offset(text),
    ensures
        exists|at: int| #[trigger] ends_a_day_away(text, at),
{
    let at = if is_day_with_day_offset(text) {
        past_spaces(text, 10)
    } else if is_moment_with_day_offset(text) {
        let hours = past_spaces(text, 10);
        past_spaces(text, past_fraction(text, past_minutes(text, hours + 2)->0))
    } else if is_clock_with_day_offset(text) {
        let end = past_minutes(text, past_digits(text, 0, 2))->0;
        past_spaces(text, past_half(text, past_spaces(text, end)))
    } else {
        let month = first_where(text, not_ascii_letter());
        let hours = past_year_end(text, past_day_and_year(text, month)->0)->0;
        let end = past_minutes(text, hours + 2)->0;
        past_spaces(text, past_half(text, past_spaces(text, end)))
    };
    assert(ends_in_day_offset(text, at));
    let tail = text.skip(at);
    assert(tail.len() == text.len() - at);
    assert(tail[0] == text[at] && tail[1] == text[at + 1] && tail[2] == text[at + 2]);
    assert(ends_a_day_away(text, at));
}

proof fn lemma_past_spaces(text: Seq<char>, at: int, end: int)
    requires
        0 <= at <= end < text.len(),
        forall|i: int| at <= i < end ==> is_space(#[trigger] text[i]),
        !is_space(text[end]),
    ensures
        past_spaces(text, at) == end,
    decreases end - at,
{
    if at < end {
        assert(is_space(text[at]));
        lemma_past_spaces(text, at + 1, end);
    }
}

/// A date with such a zone behind it is refused, however many spaces stand before the zone.
pub proof fn law_dates_with_zones_a_day_away_are_refused(text: Seq<char>, at: int)
    requires
        ends_a_day_away(text, at),
        at >= 10,
        text.len() - at == 5,
        '0' <= text[at + 3] && text[at + 3] <= '5',
        '0' <= text[at + 4] && text[at + 4] <= '9',
        starts_as_date(text),
        forall|i: int| 10 <= i < at ==> is_space(#[trigger] text[i]),
    ensures
        has_day_offset(text),
{
    lemma_past_spaces(text, 10, at);
    let tail = text.skip(at);
    assert(tail[0] == text[at] && tail[1] == text[at + 1] && tail[2] == text[at + 2] && tail[3]
        == text[at + 3] && tail[4] == text[at + 4]);
    assert(ends_in_day_offset(text, at));
}

/// A date and a time of day, one space between them, with such a zone behind them are refused.
pub proof fn law_times_with_zones_a_day_away_are_refused(text: Seq<char>, at: int)
    requires
        ends_a_day_away(text, at),
        at >= 16,
        text.len() - at == 5,
        '0' <= text[at + 3] && text[at + 3] <= '5',
        '0' <= text[at + 4] && text[at + 4] <= '9',
        starts_as_date(text),
        text[10] == ' ',
        is_digit(text[11]) && is_digit(text[12]),
        text[13] == ':',
        is_digit(text[14]) && is_digit(text[15]),
        forall|i: int| 16 <= i < at ==> is_space(#[trigger] text[i]),
    ensures
        has_day_offset(text),
{
    lemma_past_spaces(text, 10, 11);
    lemma_past_spaces(text, 16, at);
    let tail = text.skip(at);
    assert(tail[0] == text[at] && tail[1] == text[at + 1] && tail[2] == text[at + 2] && tail[3]
        == text[at + 3] && tail[4] == text[at + 4]);
    assert(ends_in_day_offset(text, at));
    assert(has_digits(text, 11, 2));
    assert(has_digits(text, 14, 2));
    assert(past_minutes(text, 13) == Some(16int)) by {
        if at == 16 {
            assert(text[16] == '+' || text[16] == '-');
        } else {
            assert(is_space(text[16]));
        }
    }
    assert(past_fraction(text, 16) == 16) by {
        if at > 16 {
            assert(is_space(text[16]));
        }
    }
}

} // verus!
