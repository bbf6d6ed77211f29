//! Text as a sequence of characters: splitting, trimming, joining, replacing, comparing.
use vstd::prelude::*;
use crate::seqs::{
    first_where, lemma_filter_next, lemma_first_where_is, lemma_insert_at, lemma_take_all,
    lemma_take_next, lemma_views_push, opt_view, sorted, total_order, views,
};

verus! {

/// `String::push` appends one character.
pub assume_specification[ String::push ](text: &mut String, c: char)
    ensures
        final(text)@ == old(text)@.push(c),
;

/// The characters with Unicode's White_Space property.
pub open spec fn is_space(c: char) -> bool {
    let n = c as u32;
    ||| 0x9 <= n <= 0xd
    ||| n == 0x20
    ||| n == 0x85
    ||| n == 0xa0
    ||| n == 0x1680
    ||| 0x2000 <= n <= 0x200a
    ||| n == 0x2028
    ||| n == 0x2029
    ||| n == 0x202f
    ||| n == 0x205f
    ||| n == 0x3000
}

/// `c`, as a small letter if it is one of A to Z.
pub open spec fn ascii_lower(c: char) -> char {
    if 'A' <= c <= 'Z' {
        (c as u32 + 32) as char
    } else {
        c
    }
}

/// `text` with A to Z written small.
pub open spec fn ascii_lowered(text: Seq<char>) -> Seq<char> {
    Seq::new(text.len(), |i: int| ascii_lower(text[i]))
}

pub open spec fn is_ascii_alphanumeric(c: char) -> bool {
    'a' <= c <= 'z' || 'A' <= c <= 'Z' || '0' <= c <= '9'
}

/// Where a text is cut into pieces.
pub enum Cut {
    At(char),
    Space,
}

pub open spec fn cuts(cut: Cut, c: char) -> bool {
    match cut {
        Cut::At(sep) => c == sep,
        Cut::Space => is_space(c),
    }
}

/// `text` cut into pieces, read from left to right: a cutting character opens a new empty
/// piece, any other one goes to the end of the last piece.
pub open spec fn pieces(text: Seq<char>, cut: Cut) -> Seq<Seq<char>>
    decreases text.len(),
{
    if text.len() == 0 {
        seq![Seq::empty()]
    } else {
        let earlier = pieces(text.drop_last(), cut);
        if cuts(cut, text.last()) {
            earlier.push(Seq::empty())
        } else {
            earlier.drop_last().push(earlier.last().push(text.last()))
        }
    }
}

pub open spec fn not_blank() -> spec_fn(Seq<char>) -> bool {
    |piece: Seq<char>| piece.len() > 0
}

/// The maximal runs of characters that are not white space.
pub open spec fn words(text: Seq<char>) -> Seq<Seq<char>> {
    pieces(text, Cut::Space).filter(not_blank())
}

/// A line without the carriage return that belongs to its line ending.
pub open spec fn without_return(line: Seq<char>) -> Seq<char> {
    if line.len() > 0 && line.last() == '\r' {
        line.drop_last()
    } else {
        line
    }
}

/// The lines of `text`. What follows the last line feed is a line if it is not empty.
pub open spec fn lines(text: Seq<char>) -> Seq<Seq<char>> {
    let parts = pieces(text, Cut::At('\n'));
    let ended = parts.drop_last().map_values(|line: Seq<char>| without_return(line));
    if parts.last().len() > 0 {
        ended.push(parts.last())
    } else {
        ended
    }
}

pub open spec fn not_space() -> spec_fn(char) -> bool {
    |c: char| !is_space(c)
}

pub open spec fn trim_start(text: Seq<char>) -> Seq<char> {
    text.skip(first_where(text, not_space()))
}

pub open spec fn trim_end(text: Seq<char>) -> Seq<char>
    decreases text.len(),
{
    if text.len() > 0 && is_space(text.last()) {
        trim_end(text.drop_last())
    } else {
        text
    }
}

/// `text` without white space at either end.
pub open spec fn trim(text: Seq<char>) -> Seq<char> {
    trim_end(trim_start(text))
}

/// The parts of `parts`, with `sep` between each two.
pub open spec fn join(parts: Seq<Seq<char>>, sep: Seq<char>) -> Seq<char>
    decreases parts.len(),
{
    if parts.len() == 0 {
        Seq::empty()
    } else if parts.len() == 1 {
        parts[0]
    } else {
        join(parts.drop_last(), sep) + sep + parts.last()
    }
}

pub open spec fn starts_with(text: Seq<char>, prefix: Seq<char>) -> bool {
    prefix.len() <= text.len() && text.take(prefix.len() as int) == prefix
}

/// `part` occurs somewhere in `text`.
pub open spec fn contains_text(text: Seq<char>, part: Seq<char>) -> bool {
    exists|i: int|
        0 <= i <= text.len() - part.len() && #[trigger] starts_with(text.skip(i), part)
}

/// `text` with every occurrence of `from` replaced, from left to right.
pub open spec fn replace_all(text: Seq<char>, from: Seq<char>, to: Seq<char>) -> Seq<char>
    decreases text.len(),
{
    if text.len() == 0 || from.len() == 0 {
        text
    } else if starts_with(text, from) {
        to + replace_all(text.skip(from.len() as int), from, to)
    } else {
        seq![text[0]] + replace_all(text.skip(1), from, to)
    }
}

/// `text` with the first occurrence of `from` replaced.
pub open spec fn replace_first(text: Seq<char>, from: Seq<char>, to: Seq<char>) -> Seq<char>
    decreases text.len(),
{
    if text.len() == 0 || from.len() == 0 {
        text
    } else if starts_with(text, from) {
        to + text.skip(from.len() as int)
    } else {
        seq![text[0]] + replace_first(text.skip(1), from, to)
    }
}

/// `text` without any number of `prefix` at its start.
pub open spec fn without_prefixes(text: Seq<char>, prefix: Seq<char>) -> Seq<char>
    decreases text.len(),
{
    if prefix.len() > 0 && starts_with(text, prefix) {
        without_prefixes(text.skip(prefix.len() as int), prefix)
    } else {
        text
    }
}

pub open spec fn digit_char(d: int) -> char {
    (48 + d) as char
}

/// `n` in decimal.
pub open spec fn decimal(n: nat) -> Seq<char>
    decreases n,
{
    if n < 10 {
        seq![digit_char(n as int)]
    } else {
        decimal(n / 10).push(digit_char((n % 10) as int))
    }
}

/// `n` in decimal, with a minus sign if it is negative.
pub open spec fn signed_decimal(n: int) -> Seq<char> {
    if n < 0 {
        seq!['-'] + decimal((-n) as nat)
    } else {
        decimal(n as nat)
    }
}

/// `count` times `c`.
pub open spec fn repeated(c: char, count: int) -> Seq<char> {
    Seq::new(
        if count > 0 {
            count as nat
        } else {
            0
        },
        |i: int| c,
    )
}

/// `text` with spaces behind it, at least `width` characters wide.
pub open spec fn padded(text: Seq<char>, width: int) -> Seq<char> {
    text + repeated(' ', width - text.len())
}

/// `n` in decimal with zeros in front of it, at least `width` characters wide.
pub open spec fn zero_padded(n: nat, width: int) -> Seq<char> {
    repeated('0', width - decimal(n).len()) + decimal(n)
}

pub open spec fn is_digit(c: char) -> bool {
    '0' <= c <= '9'
}

/// The number that a row of decimal digits stands for.
pub open spec fn number(digits: Seq<char>) -> nat
    decreases digits.len(),
{
    if digits.len() == 0 {
        0
    } else {
        (number(digits.drop_last()) * 10 + (digits.last() as u32 - 48)) as nat
    }
}

/// `text` without the plus sign that a number may start with.
pub open spec fn without_plus(text: Seq<char>) -> Seq<char> {
    if text.len() > 0 && text[0] == '+' {
        text.skip(1)
    } else {
        text
    }
}

/// The number that `text` writes in decimal: an optional plus sign, then at least one digit and
/// nothing else.
pub open spec fn parsed_number(text: Seq<char>) -> Option<nat> {
    let digits = without_plus(text);
    if digits.len() > 0 && (forall|i: int| 0 <= i < digits.len() ==> is_digit(#[trigger] digits[i])) {
        Some(number(digits))
    } else {
        None
    }
}

/// `a` comes before `b` or is the same: the first character that differs decides, by its code,
/// and a text comes before its extensions.
pub open spec fn text_le(a: Seq<char>, b: Seq<char>) -> bool
    decreases a.len(),
{
    if a.len() == 0 {
        true
    } else if b.len() == 0 {
        false
    } else if a[0] == b[0] {
        text_le(a.skip(1), b.skip(1))
    } else {
        a[0] < b[0]
    }
}

pub open spec fn text_order() -> spec_fn(Seq<char>, Seq<char>) -> bool {
    |a: Seq<char>, b: Seq<char>| text_le(a, b)
}

proof fn lemma_text_le_total(a: Seq<char>, b: Seq<char>)
    ensures
        text_le(a, b) || text_le(b, a),
    decreases a.len(),
{
    if a.len() > 0 && b.len() > 0 && a[0] == b[0] {
        lemma_text_le_total(a.skip(1), b.skip(1));
    }
}

proof fn lemma_text_le_transitive(a: Seq<char>, b: Seq<char>, c: Seq<char>)
    requires
        text_le(a, b),
        text_le(b, c),
    ensures
        text_le(a, c),
    decreases a.len(),
{
    if a.len() > 0 && a[0] == b[0] && b[0] == c[0] && c.len() > 0 {
        lemma_text_le_transitive(a.skip(1), b.skip(1), c.skip(1));
    }
}

/// Any two texts are ordered, and the order is transitive.
pub proof fn law_texts_are_totally_ordered()
    ensures
        total_order(text_order()),
{
    let le = text_order();
    assert forall|a: Seq<char>, b: Seq<char>| #[trigger] le(a, b) || le(b, a) by {
        lemma_text_le_total(a, b);
    }
    assert forall|a: Seq<char>, b: Seq<char>, c: Seq<char>| #[trigger]
        le(a, b) && #[trigger] le(b, c) implies le(a, c) by {
        lemma_text_le_transitive(a, b, c);
    }
}

/// `f` says what `ask` answers.
pub open spec fn describes<P: Fn(&str) -> bool>(ask: P, f: spec_fn(Seq<char>) -> bool) -> bool {
    forall|text: &str, answer: bool|
        #[trigger] call_ensures(ask, (text,), answer) ==> answer == f(text@)
}

/// `ask` can answer `answer` when it is asked about `text`.
pub open spec fn can_answer<P: Fn(&str) -> bool>(ask: P, text: Seq<char>, answer: bool) -> bool {
    exists|asked: &str| asked@ == text && #[trigger] call_ensures(ask, (asked,), answer)
}

/// The path of `name` in the directory `dir`.
pub open spec fn path_join(dir: Seq<char>, name: Seq<char>) -> Seq<char> {
    if dir.len() == 0 || dir.last() == '/' {
        dir + name
    } else {
        dir + "/"@ + name
    }
}

/// The path of `name` in the directory `dir`; see [`path_join`].
pub fn joined_path(dir: &str, name: &str) -> (path: String)
    ensures
        path@ == path_join(dir@, name@),
{
    let chars = chars_of(dir);
    let mut path = dir.to_string();
    if chars.len() > 0 && chars[chars.len() - 1] != '/' {
        path.append("/");
    }
    path.append(name);
    path
}

/// What `text` holds, or `otherwise`.
pub open spec fn text_or(text: Option<Seq<char>>, otherwise: Seq<char>) -> Seq<char> {
    match text {
        Some(text) => text,
        None => otherwise,
    }
}

/// A copy of what `text` holds, or of `otherwise`.
pub fn text_or_else(text: &Option<String>, otherwise: &str) -> (out: String)
    ensures
        out@ == text_or(opt_view(*text), otherwise@),
{
    match text {
        Some(text) => text.clone(),
        None => otherwise.to_string(),
    }
}

/// A list of a single line.
pub fn one_line(line: String) -> (out: Vec<String>)
    ensures
        views(out@) == seq![line@],
{
    let mut out: Vec<String> = Vec::new();
    out.push(line);
    assert(views(out@) =~= seq![line@]);
    out
}

/// What `{:?}` makes of a text: it stands in quotes, with escapes.
pub uninterp spec fn quoted(text: Seq<char>) -> Seq<char>;

/// `format!` with `{:?}` on a `str`, whose result has the name [`quoted`].
#[verifier::external_body]
pub(crate) fn quoted_text(text: &str) -> (out: String)
    ensures
        out@ == quoted(text@),
{
    format!("{:?}", text)
}

/// What `str::to_lowercase` makes of a text.
pub uninterp spec fn lowercase(text: Seq<char>) -> Seq<char>;

/// `str::to_lowercase`, whose result has the name [`lowercase`].
#[verifier::external_body]
pub(crate) fn lowercase_text(text: &str) -> (out: String)
    ensures
        out@ == lowercase(text@),
        (forall|i: int| 0 <= i < text@.len() ==> (#[trigger] text@[i]) as u32 <= 127) ==> out@
            == ascii_lowered(text@),
{
    text.to_lowercase()
}

pub fn chars_of(text: &str) -> (chars: Vec<char>)
    ensures
        chars@ == text@,
{
    let mut chars: Vec<char> = Vec::new();
    for c in it: text.chars()
        invariant
            it.seq() == text@,
            chars@ == text@.take(it.index() as int),
    {
        chars.push(c);
    }
    chars
}

pub fn text_of(chars: &[char]) -> (text: String)
    ensures
        text@ == chars@,
{
    let mut text = String::new();
    for i in 0..chars.len()
        invariant
            text@ == chars@.take(i as int),
    {
        text.push(chars[i]);
    }
    text
}

/// The characters from `from` up to, not including, `to`.
fn part_of(chars: &[char], from: usize, to: usize) -> (text: String)
    requires
        from <= to <= chars@.len(),
    ensures
        text@ == chars@.subrange(from as int, to as int),
{
    let mut text = String::new();
    for i in from..to
        invariant
            from <= to <= chars@.len(),
            text@ == chars@.subrange(from as int, i as int),
    {
        text.push(chars[i]);
        assert(text@ =~= chars@.subrange(from as int, i + 1));
    }
    text
}

pub fn same_text(a: &str, b: &str) -> (same: bool)
    ensures
        same == (a@ == b@),
{
    let left = chars_of(a);
    let right = chars_of(b);
    if left.len() != right.len() {
        return false;
    }
    for i in 0..left.len()
        invariant
            left@ == a@,
            right@ == b@,
            left@.len() == right@.len(),
            forall|j: int| 0 <= j < i ==> left@[j] == right@[j],
    {
        if left[i] != right[i] {
            return false;
        }
    }
    assert(a@ =~= b@);
    true
}

/// Whether `text` is one of `items`.
pub fn is_among(text: &str, items: &[String]) -> (found: bool)
    ensures
        found == views(items@).contains(text@),
{
    for i in 0..items.len()
        invariant
            forall|j: int| 0 <= j < i ==> items@[j]@ != text@,
    {
        if same_text(items[i].as_str(), text) {
            assert(views(items@)[i as int] == text@);
            return true;
        }
    }
    assert forall|j: int| 0 <= j < views(items@).len() implies views(items@)[j] != text@ by {
        assert(items@[j]@ != text@);
    }
    false
}

/// A copy of every text.
pub fn copied(items: &[String]) -> (out: Vec<String>)
    ensures
        views(out@) == views(items@),
{
    let mut out: Vec<String> = Vec::new();
    for i in 0..items.len()
        invariant
            views(out@) == views(items@).take(i as int),
    {
        let copy = items[i].clone();
        proof {
            lemma_views_push(out@, copy);
            lemma_take_next(views(items@), i as int);
        }
        out.push(copy);
    }
    proof {
        lemma_take_all(views(items@));
    }
    out
}

pub fn same_texts(a: &[String], b: &[String]) -> (same: bool)
    ensures
        same == (views(a@) == views(b@)),
{
    if a.len() != b.len() {
        assert(views(a@).len() != views(b@).len());
        return false;
    }
    for i in 0..a.len()
        invariant
            a@.len() == b@.len(),
            forall|j: int| 0 <= j < i ==> a@[j]@ == b@[j]@,
    {
        if !same_text(a[i].as_str(), b[i].as_str()) {
            assert(views(a@)[i as int] != views(b@)[i as int]);
            return false;
        }
    }
    assert(views(a@) =~= views(b@));
    true
}

pub fn space(c: char) -> (yes: bool)
    ensures
        yes == is_space(c),
{
    let n: u32 = c as u32;
    (0x9 <= n && n <= 0xd) || n == 0x20 || n == 0x85 || n == 0xa0 || n == 0x1680 || (0x2000 <= n && n
        <= 0x200a) || n == 0x2028 || n == 0x2029 || n == 0x202f || n == 0x205f || n == 0x3000
}

fn lower(c: char) -> (small: char)
    ensures
        small == ascii_lower(c),
{
    if 'A' <= c && c <= 'Z' {
        ((c as u8) + 32) as char
    } else {
        c
    }
}

/// Whether the texts are the same when the case of A to Z does not count.
pub fn same_ignoring_ascii_case(a: &str, b: &str) -> (same: bool)
    ensures
        same == (ascii_lowered(a@) == ascii_lowered(b@)),
{
    let left = chars_of(a);
    let right = chars_of(b);
    if left.len() != right.len() {
        assert(ascii_lowered(a@).len() != ascii_lowered(b@).len());
        return false;
    }
    for i in 0..left.len()
        invariant
            left@ == a@,
            right@ == b@,
            left@.len() == right@.len(),
            forall|j: int| 0 <= j < i ==> ascii_lower(left@[j]) == ascii_lower(right@[j]),
    {
        if lower(left[i]) != lower(right[i]) {
            assert(ascii_lowered(a@)[i as int] != ascii_lowered(b@)[i as int]);
            return false;
        }
    }
    assert(ascii_lowered(a@) =~= ascii_lowered(b@));
    true
}

fn cuts_at(cut: &Cut, c: char) -> (yes: bool)
    ensures
        yes == cuts(*cut, c),
{
    match cut {
        Cut::At(sep) => c == *sep,
        Cut::Space => space(c),
    }
}

/// The pieces of `text`; see [`pieces`].
pub fn cut_text(text: &str, cut: Cut) -> (parts: Vec<String>)
    ensures
        views(parts@) == pieces(text@, cut),
        parts@.len() > 0,
{
    let chars = chars_of(text);
    let mut parts: Vec<String> = Vec::new();
    let mut last = String::new();
    proof {
        assert(views(parts@).push(last@) =~= pieces(text@.take(0), cut));
    }
    for i in 0..chars.len()
        invariant
            chars@ == text@,
            views(parts@).push(last@) == pieces(text@.take(i as int), cut),
    {
        let ghost earlier = pieces(text@.take(i as int), cut);
        let ghost before = parts@;
        proof {
            lemma_take_next(text@, i as int);
            assert(earlier.drop_last() =~= views(parts@));
        }
        if cuts_at(&cut, chars[i]) {
            proof {
                lemma_views_push(parts@, last);
            }
            parts.push(last);
            last = String::new();
        } else {
            last.push(chars[i]);
        }
    }
    proof {
        lemma_take_all(text@);
        lemma_views_push(parts@, last);
    }
    parts.push(last);
    parts
}

/// The words of `text`; see [`words`].
pub fn words_of(text: &str) -> (out: Vec<String>)
    ensures
        views(out@) == words(text@),
{
    let parts = cut_text(text, Cut::Space);
    let mut out: Vec<String> = Vec::new();
    proof {
        reveal(Seq::filter);
        assert(views(out@) =~= views(parts@).take(0).filter(not_blank()));
    }
    for i in 0..parts.len()
        invariant
            views(parts@) == pieces(text@, Cut::Space),
            views(out@) == views(parts@).take(i as int).filter(not_blank()),
    {
        proof {
            lemma_filter_next(views(parts@), i as int, not_blank());
        }
        if !parts[i].as_str().is_empty() {
            let word = parts[i].clone();
            proof {
                lemma_views_push(out@, word);
            }
            out.push(word);
        }
    }
    proof {
        lemma_take_all(views(parts@));
    }
    out
}

/// The lines of `text`; see [`lines`].
pub fn lines_of(text: &str) -> (out: Vec<String>)
    ensures
        views(out@) == lines(text@),
{
    let parts = cut_text(text, Cut::At('\n'));
    let mut out: Vec<String> = Vec::new();
    let last: usize = parts.len() - 1;
    let ghost ended = views(parts@).drop_last().map_values(
        |line: Seq<char>| without_return(line),
    );
    assert(views(out@) =~= ended.take(0));
    for i in 0..last
        invariant
            last == parts@.len() - 1,
            ended == views(parts@).drop_last().map_values(|line: Seq<char>| without_return(line)),
            views(out@) == ended.take(i as int),
    {
        let chars = chars_of(parts[i].as_str());
        let end: usize = if chars.len() > 0 && chars[chars.len() - 1] == '\r' {
            chars.len() - 1
        } else {
            chars.len()
        };
        let line = part_of(&chars, 0, end);
        proof {
            assert(line@ =~= without_return(parts@[i as int]@));
            assert(ended[i as int] == without_return(parts@[i as int]@));
            lemma_take_next(ended, i as int);
            lemma_views_push(out@, line);
        }
        out.push(line);
    }
    proof {
        lemma_take_all(ended);
        assert(views(parts@).last() == parts@[last as int]@);
    }
    if !parts[last].as_str().is_empty() {
        let line = parts[last].clone();
        proof {
            lemma_views_push(out@, line);
        }
        out.push(line);
    }
    out
}

proof fn lemma_trim_end_take(text: Seq<char>, end: int)
    requires
        0 <= end <= text.len(),
        forall|i: int| end <= i < text.len() ==> is_space(#[trigger] text[i]),
        end > 0 ==> !is_space(text[end - 1]),
    ensures
        trim_end(text) == text.take(end),
    decreases text.len(),
{
    if end == text.len() {
        lemma_take_all(text);
    } else {
        assert(is_space(text[text.len() - 1]));
        let rest = text.drop_last();
        assert forall|i: int| end <= i < rest.len() implies is_space(#[trigger] rest[i]) by {
            assert(is_space(text[i]));
        }
        lemma_trim_end_take(rest, end);
        assert(rest.take(end) =~= text.take(end));
    }
}

/// `text` without white space at either end; see [`trim`].
pub fn trimmed(text: &str) -> (out: String)
    ensures
        out@ == trim(text@),
{
    let chars = chars_of(text);
    let mut start: usize = 0;
    while start < chars.len() && space(chars[start])
        invariant
            chars@ == text@,
            start <= chars@.len(),
            forall|i: int| 0 <= i < start ==> is_space(#[trigger] chars@[i]),
        decreases chars@.len() - start,
    {
        start = start + 1;
    }
    let mut end: usize = chars.len();
    while end > start && space(chars[end - 1])
        invariant
            chars@ == text@,
            start <= end <= chars@.len(),
            forall|i: int| end <= i < chars@.len() ==> is_space(#[trigger] chars@[i]),
        decreases end,
    {
        end = end - 1;
    }
    let out = part_of(&chars, start, end);
    proof {
        assert forall|i: int| 0 <= i < start implies !not_space()(#[trigger] text@[i]) by {}
        lemma_first_where_is(text@, not_space(), start as int);
        let rest = text@.skip(start as int);
        assert forall|i: int| end - start <= i < rest.len() implies is_space(#[trigger] rest[i]) by {
            assert(rest[i] == chars@[i + start]);
        }
        if end > start {
            assert(rest[end - start - 1] == chars@[end - 1]);
        }
        lemma_trim_end_take(rest, end - start);
        assert(out@ =~= rest.take(end - start));
    }
    out
}

/// The parts with `sep` between each two; see [`join`].
pub fn joined(parts: &[String], sep: &str) -> (out: String)
    ensures
        out@ == join(views(parts@), sep@),
{
    let mut out = String::new();
    for i in 0..parts.len()
        invariant
            out@ == join(views(parts@).take(i as int), sep@),
    {
        proof {
            lemma_take_next(views(parts@), i as int);
        }
        if i > 0 {
            out.append(sep);
            out.append(parts[i].as_str());
        } else {
            out.append(parts[i].as_str());
            assert(out@ =~= parts@[0]@);
        }
    }
    proof {
        lemma_take_all(views(parts@));
    }
    out
}

/// Whether `prefix` stands in `chars` at `at`.
fn stands_at(chars: &[char], at: usize, prefix: &[char]) -> (yes: bool)
    requires
        at <= chars@.len(),
    ensures
        yes == starts_with(chars@.skip(at as int), prefix@),
{
    let ghost rest = chars@.skip(at as int);
    let total: usize = chars.len();
    if prefix.len() > total - at {
        return false;
    }
    for i in 0..prefix.len()
        invariant
            at <= total == chars@.len(),
            prefix@.len() <= chars@.len() - at,
            rest == chars@.skip(at as int),
            forall|j: int| 0 <= j < i ==> rest[j] == prefix@[j],
    {
        if chars[at + i] != prefix[i] {
            assert(rest.take(prefix@.len() as int)[i as int] != prefix@[i as int]);
            return false;
        }
    }
    assert(rest.take(prefix@.len() as int) =~= prefix@);
    true
}

pub fn begins_with(text: &str, prefix: &str) -> (yes: bool)
    ensures
        yes == starts_with(text@, prefix@),
{
    let chars = chars_of(text);
    let start = chars_of(prefix);
    assert(chars@.skip(0) =~= text@);
    stands_at(&chars, 0, &start)
}

/// What follows `prefix` in `text`, if `text` starts with it.
pub fn after_prefix(text: &str, prefix: &str) -> (rest: Option<String>)
    ensures
        match rest {
            Some(rest) => starts_with(text@, prefix@) && rest@ == text@.skip(prefix@.len() as int),
            None => !starts_with(text@, prefix@),
        },
{
    let chars = chars_of(text);
    let start = chars_of(prefix);
    assert(chars@.skip(0) =~= text@);
    if stands_at(&chars, 0, &start) {
        let rest = part_of(&chars, start.len(), chars.len());
        assert(rest@ =~= text@.skip(prefix@.len() as int));
        Some(rest)
    } else {
        None
    }
}

/// Whether `part` occurs in `text`; see [`contains_text`].
pub fn has_part(text: &str, part: &str) -> (yes: bool)
    ensures
        yes == contains_text(text@, part@),
{
    let chars = chars_of(text);
    let wanted = chars_of(part);
    if wanted.len() > chars.len() {
        return false;
    }
    let last: usize = chars.len() - wanted.len();
    for i in 0..last
        invariant
            chars@ == text@,
            wanted@ == part@,
            last == chars@.len() - wanted@.len(),
            forall|j: int| 0 <= j < i ==> !#[trigger] starts_with(text@.skip(j), part@),
    {
        if stands_at(&chars, i, &wanted) {
            return true;
        }
    }
    stands_at(&chars, last, &wanted)
}

/// `text` with every `from` replaced; see [`replace_all`].
pub fn replaced_all(text: &str, from: &str, to: &str) -> (out: String)
    ensures
        out@ == replace_all(text@, from@, to@),
{
    let chars = chars_of(text);
    let old = chars_of(from);
    let mut out = String::new();
    if old.len() == 0 {
        return part_of(&chars, 0, chars.len());
    }
    let mut i: usize = 0;
    assert(text@.skip(0) =~= text@);
    while i < chars.len()
        invariant
            chars@ == text@,
            old@ == from@,
            old@.len() > 0,
            i <= chars@.len(),
            out@ + replace_all(text@.skip(i as int), from@, to@) == replace_all(text@, from@, to@),
        decreases chars@.len() - i,
    {
        let ghost rest = text@.skip(i as int);
        if stands_at(&chars, i, &old) {
            let ghost before = out@;
            out.append(to);
            proof {
                assert(rest.skip(from@.len() as int) =~= text@.skip(i + from@.len()));
                let tail = replace_all(text@.skip(i + from@.len()), from@, to@);
                assert(before + (to@ + tail) =~= (before + to@) + tail);
            }
            i = i + old.len();
        } else {
            let ghost before = out@;
            out.push(chars[i]);
            proof {
                assert(rest.skip(1) =~= text@.skip(i + 1));
                let tail = replace_all(text@.skip(i + 1), from@, to@);
                assert(before + (seq![rest[0]] + tail) =~= before.push(rest[0]) + tail);
            }
            i = i + 1;
        }
    }
    proof {
        assert(text@.skip(i as int) =~= Seq::<char>::empty());
        assert(out@ + Seq::<char>::empty() =~= out@);
    }
    out
}

/// `text` with the first `from` replaced; see [`replace_first`].
pub fn replaced_first(text: &str, from: &str, to: &str) -> (out: String)
    ensures
        out@ == replace_first(text@, from@, to@),
{
    let chars = chars_of(text);
    let old = chars_of(from);
    let mut out = String::new();
    if old.len() == 0 {
        return part_of(&chars, 0, chars.len());
    }
    let mut i: usize = 0;
    assert(text@.skip(0) =~= text@);
    while i < chars.len()
        invariant
            chars@ == text@,
            old@ == from@,
            old@.len() > 0,
            i <= chars@.len(),
            out@ + replace_first(text@.skip(i as int), from@, to@) == replace_first(
                text@,
                from@,
                to@,
            ),
        decreases chars@.len() - i,
    {
        let ghost rest = text@.skip(i as int);
        let ghost before = out@;
        if stands_at(&chars, i, &old) {
            out.append(to);
            let tail = part_of(&chars, i + old.len(), chars.len());
            out.append(tail.as_str());
            proof {
                assert(rest.skip(from@.len() as int) =~= tail@);
                assert(before + (to@ + tail@) =~= out@);
            }
            return out;
        }
        out.push(chars[i]);
        proof {
            assert(rest.skip(1) =~= text@.skip(i + 1));
            let tail = replace_first(text@.skip(i + 1), from@, to@);
            assert(before + (seq![rest[0]] + tail) =~= before.push(rest[0]) + tail);
        }
        i = i + 1;
    }
    proof {
        assert(text@.skip(i as int) =~= Seq::<char>::empty());
        assert(out@ + Seq::<char>::empty() =~= out@);
    }
    out
}

/// `text` without any number of `prefix` at its start; see [`without_prefixes`].
pub fn prefixes_removed(text: &str, prefix: &str) -> (out: String)
    ensures
        out@ == without_prefixes(text@, prefix@),
{
    let chars = chars_of(text);
    let start = chars_of(prefix);
    let total: usize = chars.len();
    let mut i: usize = 0;
    assert(text@.skip(0) =~= text@);
    while start.len() > 0 && stands_at(&chars, i, &start)
        invariant
            chars@ == text@,
            start@ == prefix@,
            i <= total == chars@.len(),
            without_prefixes(text@.skip(i as int), prefix@) == without_prefixes(text@, prefix@),
        decreases chars@.len() - i,
    {
        assert(text@.skip(i as int).skip(prefix@.len() as int) =~= text@.skip(i + prefix@.len()));
        assert(start@.len() <= text@.skip(i as int).len());
        i = i + start.len();
    }
    let out = part_of(&chars, i, chars.len());
    assert(out@ =~= text@.skip(i as int));
    out
}

/// `text` without any `c` at its end.
pub open spec fn without_trailing(text: Seq<char>, c: char) -> Seq<char>
    decreases text.len(),
{
    if text.len() > 0 && text.last() == c {
        without_trailing(text.drop_last(), c)
    } else {
        text
    }
}

/// `text` with every `from` written as `to`.
pub open spec fn recoded(text: Seq<char>, from: char, to: char) -> Seq<char> {
    Seq::new(
        text.len(),
        |i: int|
            if text[i] == from {
                to
            } else {
                text[i]
            },
    )
}

proof fn lemma_without_trailing(text: Seq<char>, c: char, end: int)
    requires
        0 <= end <= text.len(),
        forall|i: int| end <= i < text.len() ==> #[trigger] text[i] == c,
        end > 0 ==> text[end - 1] != c,
    ensures
        without_trailing(text, c) == text.take(end),
    decreases text.len(),
{
    if end == text.len() {
        lemma_take_all(text);
    } else {
        assert(text[text.len() - 1] == c);
        lemma_without_trailing(text.drop_last(), c, end);
        assert(text.drop_last().take(end) =~= text.take(end));
    }
}

/// `text` without any `from` at its end, and with every other one written as `to`.
pub fn recoded_text(text: &str, from: char, to: char) -> (out: String)
    ensures
        out@ == recoded(without_trailing(text@, from), from, to),
{
    let chars = chars_of(text);
    let mut end: usize = chars.len();
    while end > 0 && chars[end - 1] == from
        invariant
            chars@ == text@,
            end <= chars@.len(),
            forall|i: int| end <= i < chars@.len() ==> #[trigger] chars@[i] == from,
        decreases end,
    {
        end = end - 1;
    }
    proof {
        lemma_without_trailing(text@, from, end as int);
    }
    let ghost kept = text@.take(end as int);
    let mut out = String::new();
    for i in 0..end
        invariant
            chars@ == text@,
            end <= chars@.len(),
            kept == text@.take(end as int),
            out@ == recoded(kept, from, to).take(i as int),
    {
        proof {
            lemma_take_next(recoded(kept, from, to), i as int);
        }
        if chars[i] == from {
            out.push(to);
        } else {
            out.push(chars[i]);
        }
    }
    proof {
        lemma_take_all(recoded(kept, from, to));
    }
    out
}

proof fn lemma_decimal_len(n: nat)
    ensures
        decimal(n).len() >= 1,
        n >= 10 ==> decimal(n).len() >= 2,
    decreases n,
{
    if n >= 10 {
        lemma_decimal_len(n / 10);
    }
}

/// Different numbers are written differently.
pub proof fn lemma_decimal_injective(a: nat, b: nat)
    requires
        decimal(a) == decimal(b),
    ensures
        a == b,
    decreases a,
{
    lemma_decimal_len(a);
    lemma_decimal_len(b);
    let da = digit_char((a % 10) as int);
    let db = digit_char((b % 10) as int);
    assert(decimal(a).last() == da);
    assert(decimal(b).last() == db);
    assert(da as int == 48 + a % 10);
    assert(db as int == 48 + b % 10);
    if a >= 10 {
        assert(decimal(a).drop_last() =~= decimal(a / 10));
        assert(decimal(b).drop_last() =~= decimal(b / 10));
        lemma_decimal_injective(a / 10, b / 10);
    }
}

fn push_decimal(out: &mut String, n: u64)
    ensures
        final(out)@ == old(out)@ + decimal(n as nat),
    decreases n,
{
    if n >= 10 {
        push_decimal(out, n / 10);
    }
    out.push((48 + (n % 10) as u8) as char);
    assert(out@ =~= old(out)@ + decimal(n as nat));
}

/// `n` in decimal.
pub fn decimal_text(n: u64) -> (out: String)
    ensures
        out@ == decimal(n as nat),
{
    let mut out = String::new();
    push_decimal(&mut out, n);
    assert(out@ =~= decimal(n as nat));
    out
}

/// `n` in decimal, with its sign if it is negative.
pub fn signed_decimal_text(n: i64) -> (out: String)
    ensures
        out@ == signed_decimal(n as int),
{
    let mut out = String::new();
    if n < 0 {
        out.push('-');
        push_decimal(&mut out, (-(n as i128)) as u64);
    } else {
        push_decimal(&mut out, n as u64);
    }
    assert(out@ =~= signed_decimal(n as int));
    out
}

/// How many characters `text` has.
pub fn width(text: &str) -> (n: usize)
    ensures
        n == text@.len(),
{
    chars_of(text).len()
}

/// `text` with spaces behind it up to `width` characters; see [`padded`].
pub fn padded_text(text: &str, width: usize) -> (out: String)
    ensures
        out@ == padded(text@, width as int),
{
    let chars = chars_of(text);
    let mut out = text_of(&chars);
    let mut have: usize = chars.len();
    while have < width
        invariant
            text@.len() <= have,
            have <= width || have == text@.len(),
            out@ == text@ + repeated(' ', have - text@.len()),
        decreases width - have,
    {
        let ghost before = out@;
        out.push(' ');
        have = have + 1;
        assert(out@ =~= text@ + repeated(' ', have - text@.len()));
    }
    assert(out@ =~= padded(text@, width as int));
    out
}

/// `n` in decimal with zeros in front of it up to `width` characters; see [`zero_padded`].
pub fn zero_padded_text(n: u64, width: usize) -> (out: String)
    ensures
        out@ == zero_padded(n as nat, width as int),
{
    let digits = decimal_text(n);
    let chars = chars_of(digits.as_str());
    let mut out = String::new();
    let mut have: usize = chars.len();
    while have < width
        invariant
            chars@.len() <= have,
            have <= width || have == chars@.len(),
            out@ == repeated('0', have - chars@.len()),
        decreases width - have,
    {
        out.push('0');
        have = have + 1;
        assert(out@ =~= repeated('0', have - chars@.len()));
    }
    out.append(digits.as_str());
    assert(out@ =~= zero_padded(n as nat, width as int));
    out
}

/// The number that `text` writes, if it is one and fits; see [`parsed_number`].
pub fn parse_u32(text: &str) -> (out: Option<u32>)
    ensures
        match out {
            Some(n) => parsed_number(text@) == Some(n as nat),
            None => match parsed_number(text@) {
                Some(n) => n > u32::MAX,
                None => true,
            },
        },
{
    let chars = chars_of(text);
    let start: usize = if chars.len() > 0 && chars[0] == '+' {
        1
    } else {
        0
    };
    let ghost digits = without_plus(text@);
    assert(digits =~= text@.skip(start as int));
    if chars.len() == start {
        return None;
    }
    let mut total: u32 = 0;
    let mut too_big = false;
    for i in start..chars.len()
        invariant
            chars@ == text@,
            start <= chars@.len(),
            digits == text@.skip(start as int),
            digits == without_plus(text@),
            forall|j: int| 0 <= j < i - start ==> is_digit(#[trigger] digits[j]),
            !too_big ==> number(digits.take(i - start)) == total,
            too_big ==> number(digits.take(i - start)) > u32::MAX,
    {
        let c = chars[i];
        assert(digits[i - start] == c);
        if !('0' <= c && c <= '9') {
            assert(!is_digit(digits[i - start]));
            return None;
        }
        proof {
            lemma_take_next(digits, i - start);
        }
        let digit: u32 = c as u32 - 48;
        let next: u64 = total as u64 * 10 + digit as u64;
        if !too_big {
            if next > 0xffff_ffff {
                too_big = true;
            } else {
                total = next as u32;
            }
        }
    }
    proof {
        lemma_take_all(digits);
    }
    if too_big {
        None
    } else {
        Some(total)
    }
}

proof fn lemma_text_le_skip(a: Seq<char>, b: Seq<char>, n: int)
    requires
        0 <= n <= a.len(),
        n <= b.len(),
        forall|i: int| 0 <= i < n ==> a[i] == b[i],
    ensures
        text_le(a, b) == text_le(a.skip(n), b.skip(n)),
    decreases n,
{
    if n == 0 {
        assert(a.skip(0) =~= a);
        assert(b.skip(0) =~= b);
    } else {
        let a1 = a.skip(1);
        let b1 = b.skip(1);
        assert forall|i: int| 0 <= i < n - 1 implies a1[i] == b1[i] by {
            assert(a[i + 1] == b[i + 1]);
        }
        lemma_text_le_skip(a1, b1, n - 1);
        assert(a1.skip(n - 1) =~= a.skip(n));
        assert(b1.skip(n - 1) =~= b.skip(n));
    }
}

/// Whether `a` comes before `b` or is the same; see [`text_le`].
pub fn not_after(a: &str, b: &str) -> (yes: bool)
    ensures
        yes == text_le(a@, b@),
{
    let left = chars_of(a);
    let right = chars_of(b);
    let mut i: usize = 0;
    while i < left.len() && i < right.len() && left[i] == right[i]
        invariant
            left@ == a@,
            right@ == b@,
            i <= left@.len(),
            i <= right@.len(),
            forall|j: int| 0 <= j < i ==> left@[j] == right@[j],
        decreases left@.len() - i,
    {
        i = i + 1;
    }
    proof {
        lemma_text_le_skip(a@, b@, i as int);
    }
    if i == left.len() {
        true
    } else if i == right.len() {
        false
    } else {
        left[i] < right[i]
    }
}

/// The texts in order, the smallest first; see [`text_le`].
pub fn sorted_texts(items: &[String]) -> (out: Vec<String>)
    ensures
        views(out@) == sorted(views(items@), text_order()),
{
    let mut out: Vec<String> = Vec::new();
    assert(views(out@) =~= Seq::<Seq<char>>::empty());
    for i in 0..items.len()
        invariant
            views(out@) == sorted(views(items@).take(i as int), text_order()),
    {
        let item = items[i].clone();
        let mut at: usize = out.len();
        while at > 0 && !not_after(out[at - 1].as_str(), item.as_str())
            invariant
                at <= out@.len(),
                forall|k: int| at <= k < out@.len() ==> !text_le((#[trigger] out@[k])@, item@),
            decreases at,
        {
            at = at - 1;
        }
        proof {
            let seen = views(out@);
            let le = text_order();
            assert forall|k: int| at <= k < seen.len() implies !le(#[trigger] seen[k], item@) by {
                assert(seen[k] == out@[k]@);
            }
            lemma_insert_at(seen, item@, le, at as int);
            lemma_take_next(views(items@), i as int);
            assert(views(out@.insert(at as int, item)) =~= seen.insert(at as int, item@));
        }
        out.insert(at, item);
    }
    proof {
        lemma_take_all(views(items@));
    }
    out
}

} // verus!
