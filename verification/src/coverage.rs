//! The logical coverage manifest of a conformance suite: requirement identifiers, case
//! identifiers, Markdown heading anchors, and the checks over coverage fragments and case
//! headers. Finding and reading files is left to the caller, which hands over their text
//! as parsed TOML values and their resolved specification documents.
use vstd::prelude::*;

use crate::assembly::{char_views, lines, split_lines};
use crate::chars::{
    chars_to_string, copy_range, is_ascii_alnum, is_ascii_alpha, is_ascii_digit,
    is_ascii_lower, is_ascii_upper, is_space, is_space_exec, str_chars, trim, trim_chars,
    trim_end, trim_start,
};

verus! {

// ---------------------------------------------------------------------------------------
// Identifiers.

/// A requirement id: an ASCII upper-case letter, then upper-case letters, digits and
/// single hyphens, not ending in a hyphen.
pub open spec fn requirement_id_ok(id: Seq<char>) -> bool {
    &&& id.len() > 0 && is_ascii_upper(id[0])
    &&& id.last() != '-'
    &&& !exists|i: int| 0 <= i && i + 1 < id.len() && #[trigger] id[i] == '-' && id[i + 1] == '-'
    &&& forall|i: int| 1 <= i < id.len() ==> is_ascii_upper(#[trigger] id[i]) || is_ascii_digit(id[i]) || id[i] == '-'
}

/// Whether `id` is a valid requirement id.
pub fn valid_requirement_id(id: &str) -> (b: bool)
    ensures
        b == requirement_id_ok(id@),
{
    let s = str_chars(id);
    let n = s.len();
    if n == 0 || !('A' <= s[0] && s[0] <= 'Z') {
        return false;
    }
    if s[n - 1] == '-' {
        return false;
    }
    let mut i: usize = 0;
    while i < n
        invariant
            n == s@.len(),
            s@ == id@,
            n > 0,
            is_ascii_upper(s@[0]),
            s@.last() != '-',
            i <= n,
            forall|j: int| 0 <= j && j + 1 < n && j < i ==> !(#[trigger] s@[j] == '-' && s@[j + 1] == '-'),
            forall|j: int| 1 <= j < i ==> is_ascii_upper(#[trigger] s@[j]) || is_ascii_digit(s@[j]) || s@[j] == '-',
        decreases n - i,
    {
        let c = s[i];
        if i + 1 < n && c == '-' && s[i + 1] == '-' {
            return false;
        }
        if i >= 1 && !(('A' <= c && c <= 'Z') || ('0' <= c && c <= '9') || c == '-') {
            return false;
        }
        i = i + 1;
    }
    true
}

/// ASCII control characters: `0x00..=0x1F` and `0x7F`.
pub open spec fn is_ascii_control(c: char) -> bool {
    (c as u32) < 0x20 || (c as u32) == 0x7f
}

/// ASCII white space as `u8::is_ascii_whitespace` has it: space, tab, line feed, form
/// feed, carriage return.
pub open spec fn is_ascii_ws(c: char) -> bool {
    c == ' ' || c == '\t' || c == '\n' || c == '\u{0C}' || c == '\r'
}

fn is_ascii_ws_exec(c: char) -> (b: bool)
    ensures
        b == is_ascii_ws(c),
{
    c == ' ' || c == '\t' || c == '\n' || c == '\u{0C}' || c == '\r'
}

/// A case id: nonempty ASCII without control characters or white space.
pub open spec fn case_id_ok(id: Seq<char>) -> bool {
    &&& id.len() > 0
    &&& forall|i: int| 0 <= i < id.len() ==> (#[trigger] id[i] as u32) < 0x80 && !is_ascii_control(id[i]) && !is_ascii_ws(id[i])
}

/// Whether `id` is a valid case id.
pub fn valid_case_id(id: &str) -> (b: bool)
    ensures
        b == case_id_ok(id@),
{
    let s = str_chars(id);
    if s.len() == 0 {
        return false;
    }
    let mut i: usize = 0;
    while i < s.len()
        invariant
            s@ == id@,
            i <= s@.len(),
            forall|j: int| 0 <= j < i ==> (#[trigger] s@[j] as u32) < 0x80 && !is_ascii_control(s@[j]) && !is_ascii_ws(s@[j]),
        decreases s@.len() - i,
    {
        let c = s[i];
        let code = c as u32;
        if code >= 0x80 || code < 0x20 || code == 0x7f || is_ascii_ws_exec(c) {
            return false;
        }
        i = i + 1;
    }
    true
}

// ---------------------------------------------------------------------------------------
// Markdown heading anchors.

/// ASCII punctuation: the printable ASCII characters that are neither letters, digits
/// nor space.
pub open spec fn is_ascii_punct(c: char) -> bool {
    ('!' <= c && c <= '/') || (':' <= c && c <= '@') || ('[' <= c && c <= '`') || ('{' <= c && c <= '~')
}

/// `c` with an ASCII upper-case letter mapped to lower case.
pub open spec fn lower(c: char) -> char {
    if is_ascii_upper(c) { ((c as u32) + 32) as char } else { c }
}

/// What one heading character becomes in its anchor: white space becomes `-`, ASCII
/// letters become lower case, ASCII digits, `-` and `_` stay, other ASCII punctuation is
/// dropped, everything else stays.
pub open spec fn anchor_char(c: char) -> Option<char> {
    let d = if is_space(c) { '-' } else { c };
    if is_ascii_alpha(d) {
        Some(lower(d))
    } else if is_ascii_alnum(d) || d == '-' || d == '_' {
        Some(d)
    } else if is_ascii_punct(d) {
        None
    } else {
        Some(d)
    }
}

/// The anchor of a heading text.
pub open spec fn slug(s: Seq<char>) -> Seq<char>
    decreases s.len(),
{
    if s.len() == 0 {
        Seq::empty()
    } else {
        slug(s.drop_last()) + match anchor_char(s.last()) {
            Some(c) => seq![c],
            None => Seq::empty(),
        }
    }
}

/// Anchors hold no ASCII upper-case letters, no white space, and no ASCII punctuation
/// but `-` and `_`.
pub proof fn lemma_anchor_chars(s: Seq<char>)
    ensures
        forall|i: int| 0 <= i < slug(s).len() ==> {
            let c = #[trigger] slug(s)[i];
            !is_ascii_upper(c) && !is_space(c) && (is_ascii_punct(c) ==> c == '-' || c == '_')
        },
    decreases s.len(),
{
    if s.len() > 0 {
        lemma_anchor_chars(s.drop_last());
        let t = slug(s.drop_last());
        assert forall|i: int| 0 <= i < slug(s).len() implies {
            let c = #[trigger] slug(s)[i];
            !is_ascii_upper(c) && !is_space(c) && (is_ascii_punct(c) ==> c == '-' || c == '_')
        } by {
            if i < t.len() {
                assert(slug(s)[i] == t[i]);
            }
        }
    }
}

/// Number of `#` characters at the end of `s`.
pub open spec fn trailing_hashes(s: Seq<char>) -> nat
    decreases s.len(),
{
    if s.len() > 0 && s.last() == '#' { 1 + trailing_hashes(s.drop_last()) } else { 0 }
}

/// A heading text without its closing sequence: a final run of `#` that follows white
/// space is removed together with the white space before it.
pub open spec fn strip_closing(h: Seq<char>) -> Seq<char> {
    let start = h.len() - trailing_hashes(h);
    if start < h.len() && start > 0 && is_space(h[start - 1]) {
        trim_end(h.take(start))
    } else {
        h
    }
}

/// Number of spaces at the start of `s`.
pub open spec fn leading_spaces(s: Seq<char>) -> nat
    decreases s.len(),
{
    if s.len() > 0 && s[0] == ' ' { 1 + leading_spaces(s.drop_first()) } else { 0 }
}

/// Number of `#` characters at the start of `s`.
pub open spec fn leading_hashes(s: Seq<char>) -> nat
    decreases s.len(),
{
    if s.len() > 0 && s[0] == '#' { 1 + leading_hashes(s.drop_first()) } else { 0 }
}

/// The heading text of an ATX heading line: at most three spaces of indentation, one or
/// more `#`, then the end of the line or ASCII white space; the text is trimmed and loses
/// its closing sequence.
pub open spec fn heading_of(line: Seq<char>) -> Option<Seq<char>> {
    let sp = leading_spaces(line);
    let t = line.skip(sp as int);
    let count = leading_hashes(t);
    if sp > 3 || count == 0 {
        None
    } else if count < t.len() && !is_ascii_ws(t[count as int]) {
        None
    } else {
        Some(strip_closing(trim(t.skip(count as int))))
    }
}

/// The anchors of the heading lines among `ls`, in order.
pub open spec fn anchors_of(ls: Seq<Seq<char>>) -> Seq<Seq<char>>
    decreases ls.len(),
{
    if ls.len() == 0 {
        Seq::empty()
    } else {
        anchors_of(ls.drop_last()) + match heading_of(ls.last()) {
            Some(h) => seq![slug(h)],
            None => Seq::empty(),
        }
    }
}

fn trailing_hashes_exec(h: &[char]) -> (n: usize)
    ensures
        n == trailing_hashes(h@),
        n <= h@.len(),
{
    let mut n: usize = 0;
    assert(h@.take(h@.len() as int) =~= h@);
    while n < h.len() && h[h.len() - 1 - n] == '#'
        invariant
            n <= h@.len(),
            trailing_hashes(h@) == n + trailing_hashes(h@.take(h@.len() - n)),
        decreases h@.len() - n,
    {
        proof {
            let t = h@.take(h@.len() - n);
            assert(t.drop_last() =~= h@.take(h@.len() - n - 1));
        }
        n = n + 1;
    }
    proof {
        let t = h@.take(h@.len() - n);
        if n < h@.len() {
            assert(t.last() == h@[h@.len() - 1 - n]);
        } else {
            assert(t.len() == 0);
        }
    }
    n
}

fn trim_end_chars(s: &[char]) -> (r: Vec<char>)
    ensures
        r@ == trim_end(s@),
{
    let mut hi: usize = s.len();
    assert(s@.subrange(0, s@.len() as int) =~= s@);
    while hi > 0 && is_space_exec(s[hi - 1])
        invariant
            hi <= s@.len(),
            trim_end(s@) == trim_end(s@.subrange(0, hi as int)),
        decreases hi,
    {
        assert(s@.subrange(0, hi as int).drop_last() =~= s@.subrange(0, hi - 1));
        hi = hi - 1;
    }
    copy_range(s, 0, hi)
}

/// A heading text without its ATX closing sequence.
pub fn remove_atx_closing_sequence(heading: &[char]) -> (r: Vec<char>)
    ensures
        r@ == strip_closing(heading@),
{
    let n = trailing_hashes_exec(heading);
    let start = heading.len() - n;
    if start < heading.len() && start > 0 && is_space_exec(heading[start - 1]) {
        let head = copy_range(heading, 0, start);
        assert(head@ =~= heading@.take(start as int));
        trim_end_chars(head.as_slice())
    } else {
        copy_range(heading, 0, heading.len())
    }
}

fn lower_exec(c: char) -> (r: char)
    ensures
        r == lower(c),
{
    if 'A' <= c && c <= 'Z' {
        ((c as u8) + 32) as char
    } else {
        c
    }
}

fn anchor_char_exec(c: char) -> (r: Option<char>)
    ensures
        r == anchor_char(c),
{
    let d = if is_space_exec(c) { '-' } else { c };
    if ('A' <= d && d <= 'Z') || ('a' <= d && d <= 'z') {
        Some(lower_exec(d))
    } else if ('0' <= d && d <= '9') || d == '-' || d == '_' {
        Some(d)
    } else if ('!' <= d && d <= '/') || (':' <= d && d <= '@') || ('[' <= d && d <= '`') || ('{' <= d && d <= '~') {
        None
    } else {
        Some(d)
    }
}

fn slug_exec(h: &[char]) -> (r: Vec<char>)
    ensures
        r@ == slug(h@),
{
    let mut out: Vec<char> = Vec::new();
    let mut k: usize = 0;
    assert(h@.take(0) =~= Seq::<char>::empty());
    while k < h.len()
        invariant
            k <= h@.len(),
            out@ == slug(h@.take(k as int)),
        decreases h@.len() - k,
    {
        assert(h@.take(k + 1).drop_last() =~= h@.take(k as int));
        match anchor_char_exec(h[k]) {
            Some(c) => out.push(c),
            None => {},
        }
        k = k + 1;
        assert(out@ =~= slug(h@.take(k as int)));
    }
    assert(h@.take(k as int) =~= h@);
    out
}

fn heading_exec(line: &[char]) -> (r: Option<Vec<char>>)
    ensures
        match r {
            Some(h) => heading_of(line@) == Some(h@),
            None => heading_of(line@) is None,
        },
{
    let mut sp: usize = 0;
    assert(line@.skip(0) =~= line@);
    while sp < line.len() && line[sp] == ' '
        invariant
            sp <= line@.len(),
            leading_spaces(line@) == sp + leading_spaces(line@.skip(sp as int)),
        decreases line@.len() - sp,
    {
        assert(line@.skip(sp as int).drop_first() =~= line@.skip(sp + 1));
        sp = sp + 1;
    }
    assert(leading_spaces(line@.skip(sp as int)) == 0);
    if sp > 3 {
        return None;
    }
    let t = copy_range(line, sp, line.len());
    assert(t@ =~= line@.skip(sp as int));
    let mut count: usize = 0;
    assert(t@.skip(0) =~= t@);
    while count < t.len() && t[count] == '#'
        invariant
            count <= t@.len(),
            leading_hashes(t@) == count + leading_hashes(t@.skip(count as int)),
        decreases t@.len() - count,
    {
        assert(t@.skip(count as int).drop_first() =~= t@.skip(count + 1));
        count = count + 1;
    }
    assert(leading_hashes(t@.skip(count as int)) == 0);
    if count == 0 {
        return None;
    }
    if count < t.len() && !is_ascii_ws_exec(t[count]) {
        return None;
    }
    let rest = copy_range(t.as_slice(), count, t.len());
    assert(rest@ =~= t@.skip(count as int));
    let trimmed = trim_chars(rest.as_slice());
    Some(remove_atx_closing_sequence(trimmed.as_slice()))
}

/// The anchors of the ATX headings of a Markdown text, in document order.
pub fn markdown_anchors(text: &str) -> (r: Vec<String>)
    ensures
        string_views(r@) == anchors_of(lines(text@)),
{
    let chars = str_chars(text);
    let ls = split_lines(chars.as_slice());
    let ghost lv = lines(text@);
    let mut out: Vec<String> = Vec::new();
    let mut k: usize = 0;
    assert(lv.take(0) =~= Seq::<Seq<char>>::empty());
    assert(string_views(out@) =~= Seq::<Seq<char>>::empty());
    while k < ls.len()
        invariant
            char_views(ls@) == lv,
            k <= ls@.len(),
            string_views(out@) == anchors_of(lv.take(k as int)),
        decreases ls@.len() - k,
    {
        assert(lv.take(k + 1).drop_last() =~= lv.take(k as int));
        assert(lv[k as int] == ls@[k as int]@);
        let ghost before = string_views(out@);
        match heading_exec(ls[k].as_slice()) {
            Some(h) => {
                let a = slug_exec(h.as_slice());
                out.push(chars_to_string(a.as_slice()));
                assert(string_views(out@) =~= before + seq![a@]);
            },
            None => {
                assert(string_views(out@) =~= before + Seq::<Seq<char>>::empty());
            },
        }
        k = k + 1;
    }
    assert(lv.take(k as int) =~= lv);
    out
}

// ---------------------------------------------------------------------------------------
// TOML documents, diagnostics and the fragments and case headers read from them.

/// A parsed TOML value, as far as the coverage checks read it: strings, integers, arrays
/// and tables (each key once); floats, booleans and dates are `Other`.
#[derive(Debug)]
pub enum TomlValue {
    Text(String),
    Integer(i64),
    Array(Vec<TomlValue>),
    Table(Vec<(String, TomlValue)>),
    Other,
}

/// The mathematical content of a `TomlValue`.
pub enum TomlValueView {
    Text(Seq<char>),
    Integer(i64),
    Array(Seq<TomlValueView>),
    Table(Seq<(Seq<char>, TomlValueView)>),
    Other,
}

/// The view of a TOML value, element by element.
pub open spec fn toml_view(v: TomlValue) -> TomlValueView
    decreases v,
{
    match v {
        TomlValue::Text(s) => TomlValueView::Text(s@),
        TomlValue::Integer(n) => TomlValueView::Integer(n),
        TomlValue::Array(a) => TomlValueView::Array(
            Seq::new(a@.len(), |i: int| if 0 <= i < a@.len() { toml_view(a@[i]) } else { TomlValueView::Other }),
        ),
        TomlValue::Table(t) => TomlValueView::Table(
            Seq::new(t@.len(), |i: int| if 0 <= i < t@.len() { (t@[i].0@, toml_view(t@[i].1)) } else { (Seq::empty(), TomlValueView::Other) }),
        ),
        TomlValue::Other => TomlValueView::Other,
    }
}

impl View for TomlValue {
    type V = TomlValueView;

    open spec fn view(&self) -> TomlValueView {
        toml_view(*self)
    }
}

/// The views of the elements of an array.
pub open spec fn array_view(a: Seq<TomlValue>) -> Seq<TomlValueView> {
    Seq::new(a.len(), |i: int| a[i]@)
}

/// The views of the entries of a table.
pub open spec fn table_view(t: Seq<(String, TomlValue)>) -> Seq<(Seq<char>, TomlValueView)> {
    Seq::new(t.len(), |i: int| (t[i].0@, t[i].1@))
}

/// An array's or a table's view is made of the views of its elements.
pub proof fn lemma_toml_view(v: TomlValue)
    ensures
        v matches TomlValue::Array(a) ==> v@ == TomlValueView::Array(array_view(a@)),
        v matches TomlValue::Table(t) ==> v@ == TomlValueView::Table(table_view(t@)),
{
    match v {
        TomlValue::Array(a) => {
            if let TomlValueView::Array(x) = v@ {
                assert(x =~= array_view(a@));
            }
        },
        TomlValue::Table(t) => {
            if let TomlValueView::Table(x) = v@ {
                assert(x =~= table_view(t@));
            }
        },
        _ => {},
    }
}

/// `toml::Value`, the toml crate's parsed TOML value.
#[verifier::external_type_specification]
#[verifier::external_body]
pub struct ExTomlValue(toml::Value);

/// The TOML document that the toml crate parses from `text`, as the library's value, or
/// the text of the crate's parse error.
pub uninterp spec fn toml_document(text: Seq<char>) -> Result<TomlValueView, Seq<char>>;

/// `toml::Table`'s `FromStr` (through `str::parse`): the document `text` as a table, or the
/// text (`Display`) of the parse error. What it yields takes the TOML grammar to state, so
/// it is named, not stated: the result is `toml_document(text)`.
#[verifier::external_body]
fn parse_toml(text: &str) -> (r: Result<TomlValue, String>)
    ensures
        (match r {
            Ok(v) => Ok::<TomlValueView, Seq<char>>(v@),
            Err(e) => Err::<TomlValueView, Seq<char>>(e@),
        }) == toml_document(text@),
{
    match text.parse::<toml::Table>() {
        Ok(table) => Ok(toml_value(toml::Value::Table(table))),
        Err(error) => Err(error.to_string()),
    }
}

/// The toml crate's value converted type for type into the library's: strings, integers,
/// arrays and tables (walked with the crate's own iterators) keep their contents; floats,
/// booleans and dates become `Other`. It states nothing of its own: it is the conversion
/// half of `parse_toml`, called only there, and that contract names the parse and the
/// conversion together.
#[verifier::external_body]
fn toml_value(value: toml::Value) -> TomlValue {
    match value {
        toml::Value::String(s) => TomlValue::Text(s),
        toml::Value::Integer(n) => TomlValue::Integer(n),
        toml::Value::Array(items) => TomlValue::Array(items.into_iter().map(toml_value).collect()),
        toml::Value::Table(table) => TomlValue::Table(table.into_iter().map(|(k, v)| (k, toml_value(v))).collect()),
        _ => TomlValue::Other,
    }
}

/// The value of the first entry named `key`.
pub open spec fn toml_get(t: Seq<(Seq<char>, TomlValueView)>, key: Seq<char>) -> Option<TomlValueView>
    decreases t.len(),
{
    if t.len() == 0 {
        None
    } else if t[0].0 == key {
        Some(t[0].1)
    } else {
        toml_get(t.drop_first(), key)
    }
}

/// The string at `key`, if there is one.
pub open spec fn get_str(t: Seq<(Seq<char>, TomlValueView)>, key: Seq<char>) -> Option<Seq<char>> {
    match toml_get(t, key) {
        Some(TomlValueView::Text(s)) => Some(s),
        _ => None,
    }
}

/// The integer at `key`, if there is one.
pub open spec fn get_int(t: Seq<(Seq<char>, TomlValueView)>, key: Seq<char>) -> Option<i64> {
    match toml_get(t, key) {
        Some(TomlValueView::Integer(n)) => Some(n),
        _ => None,
    }
}

/// The array at `key`, if there is one.
pub open spec fn get_array(t: Seq<(Seq<char>, TomlValueView)>, key: Seq<char>) -> Option<Seq<TomlValueView>> {
    match toml_get(t, key) {
        Some(TomlValueView::Array(a)) => Some(a),
        _ => None,
    }
}

fn toml_find<'a>(t: &'a [(String, TomlValue)], key: &str) -> (r: Option<&'a TomlValue>)
    ensures
        match r {
            Some(v) => toml_get(table_view(t@), key@) == Some(v@),
            None => toml_get(table_view(t@), key@) is None,
        },
{
    let ghost tv = table_view(t@);
    let mut k: usize = 0;
    assert(tv.skip(0) =~= tv);
    while k < t.len()
        invariant
            k <= t@.len(),
            tv == table_view(t@),
            toml_get(tv, key@) == toml_get(tv.skip(k as int), key@),
        decreases t@.len() - k,
    {
        assert(tv.skip(k as int).drop_first() =~= tv.skip(k + 1));
        assert(tv.skip(k as int)[0] == (t@[k as int].0@, t@[k as int].1@));
        if crate::text::str_eq(t[k].0.as_str(), key) {
            return Some(&t[k].1);
        }
        k = k + 1;
    }
    None
}

fn find_str<'a>(t: &'a [(String, TomlValue)], key: &str) -> (r: Option<&'a str>)
    ensures
        match r {
            Some(s) => get_str(table_view(t@), key@) == Some(s@),
            None => get_str(table_view(t@), key@) is None,
        },
{
    match toml_find(t, key) {
        Some(TomlValue::Text(s)) => Some(s.as_str()),
        _ => None,
    }
}

fn find_int(t: &[(String, TomlValue)], key: &str) -> (r: Option<i64>)
    ensures
        r == get_int(table_view(t@), key@),
{
    match toml_find(t, key) {
        Some(TomlValue::Integer(n)) => Some(*n),
        _ => None,
    }
}

fn find_array<'a>(t: &'a [(String, TomlValue)], key: &str) -> (r: Option<&'a Vec<TomlValue>>)
    ensures
        match r {
            Some(a) => get_array(table_view(t@), key@) == Some(array_view(a@)),
            None => get_array(table_view(t@), key@) is None,
        },
{
    match toml_find(t, key) {
        Some(v) => match v {
            TomlValue::Array(a) => {
                proof { lemma_toml_view(*v); }
                Some(a)
            },
            _ => None,
        },
        None => None,
    }
}

/// One coverage problem: the file it concerns, when known, and a message.
#[derive(Debug, Clone)]
pub struct Diagnostic {
    pub source: Option<String>,
    pub message: String,
}

/// The mathematical content of a `Diagnostic`.
pub struct DiagnosticView {
    pub source: Option<Seq<char>>,
    pub message: Seq<char>,
}

impl View for Diagnostic {
    type V = DiagnosticView;

    open spec fn view(&self) -> DiagnosticView {
        DiagnosticView {
            source: match self.source {
                Some(s) => Some(s@),
                None => None,
            },
            message: self.message@,
        }
    }
}

/// The views of a list of diagnostics.
pub open spec fn diagnostic_views(s: Seq<Diagnostic>) -> Seq<DiagnosticView> {
    s.map_values(|d: Diagnostic| d@)
}

/// A diagnostic about the file `source`.
pub open spec fn diag(source: Seq<char>, message: Seq<char>) -> DiagnosticView {
    DiagnosticView { source: Some(source), message }
}

fn push_diag(out: &mut Vec<Diagnostic>, source: &str, message: String)
    ensures
        diagnostic_views(final(out)@) == diagnostic_views(old(out)@).push(diag(source@, message@)),
{
    let ghost before = diagnostic_views(out@);
    out.push(Diagnostic { source: Some(crate::text::owned(source)), message });
    assert(diagnostic_views(out@) =~= before.push(diag(source@, message@)));
}

/// A case file's identity: its id and the file it came from.
#[derive(Debug, Clone)]
pub struct CaseHeader {
    pub id: String,
    pub source: String,
}

/// The format tag that the case files of `suite` carry.
pub open spec fn suite_format(suite: Seq<char>) -> Seq<char> {
    if suite == "cpu"@ { "kagura-conformance-case"@ } else { "kagura-bus-conformance-case"@ }
}

/// The diagnostics of one case file of `suite` with the TOML document `v`, and its id when
/// the header is valid: a table with the suite's format, version 1 and a valid, nonempty
/// string id.
pub open spec fn case_header_check(suite: Seq<char>, source: Seq<char>, v: TomlValueView) -> (Seq<DiagnosticView>, Option<Seq<char>>) {
    match v {
        TomlValueView::Table(t) => {
            let d1 = if get_str(t, "format"@) != Some(suite_format(suite)) {
                seq![diag(source, "invalid "@ + suite + " case format"@)]
            } else {
                Seq::empty()
            };
            let d2 = if get_int(t, "version"@) != Some(1i64) {
                seq![diag(source, "unsupported "@ + suite + " case version"@)]
            } else {
                Seq::empty()
            };
            match get_str(t, "id"@) {
                Some(id) => if id.len() > 0 {
                    let d3 = if !case_id_ok(id) {
                        seq![diag(source, "invalid "@ + suite + " case identifier `"@ + id + "`"@)]
                    } else {
                        Seq::empty()
                    };
                    (d1 + d2 + d3, if d1.len() == 0 && d2.len() == 0 && d3.len() == 0 { Some(id) } else { None })
                } else {
                    (d1 + d2 + seq![diag(source, suite + " case requires a non-empty string id"@)], None)
                },
                None => (d1 + d2 + seq![diag(source, suite + " case requires a non-empty string id"@)], None),
            }
        },
        _ => (seq![diag(source, "case TOML top-level must be a table"@)], None),
    }
}

/// A case file is accepted exactly when its header draws no diagnostic, and an accepted
/// case has a valid case id: nonempty ASCII without control or white-space characters.
pub proof fn lemma_accepted_case_header(suite: Seq<char>, source: Seq<char>, v: TomlValueView)
    ensures
        case_header_check(suite, source, v).1 is Some <==> case_header_check(suite, source, v).0.len() == 0,
        case_header_check(suite, source, v).1 matches Some(id) ==> case_id_ok(id) && id.len() > 0,
{
}

/// Checks the header of one case file of `suite` (`cpu` or `bus`) read from `source`;
/// records its problems and, when it is valid, the case.
pub fn check_case_header(suite: &str, source: &str, value: &TomlValue, cases: &mut Vec<CaseHeader>, diagnostics: &mut Vec<Diagnostic>)
    ensures
        diagnostic_views(final(diagnostics)@) == diagnostic_views(old(diagnostics)@) + case_header_check(suite@, source@, value@).0,
        match case_header_check(suite@, source@, value@).1 {
            Some(id) => final(cases)@.len() == old(cases)@.len() + 1
                && final(cases)@.take(old(cases)@.len() as int) == old(cases)@
                && final(cases)@.last().id@ == id && final(cases)@.last().source@ == source@,
            None => final(cases)@ == old(cases)@,
        },
{
    let ghost d0 = diagnostic_views(diagnostics@);
    proof { lemma_toml_view(*value); }
    let t = match value {
        TomlValue::Table(t) => t.as_slice(),
        _ => {
            push_diag(diagnostics, source, crate::text::owned("case TOML top-level must be a table"));
            return;
        },
    };
    let is_cpu = crate::text::str_eq(suite, "cpu");
    let expected_format = if is_cpu { "kagura-conformance-case" } else { "kagura-bus-conformance-case" };
    let mut valid = true;
    let format_ok = match find_str(t, "format") {
        Some(f) => crate::text::str_eq(f, expected_format),
        None => false,
    };
    if !format_ok {
        push_diag(diagnostics, source, crate::text::concat3("invalid ", suite, " case format"));
        valid = false;
    }
    if find_int(t, "version") != Some(1i64) {
        push_diag(diagnostics, source, crate::text::concat3("unsupported ", suite, " case version"));
        valid = false;
    }
    let ghost d12 = diagnostic_views(diagnostics@);
    let id = match find_str(t, "id") {
        Some(id) => if str_chars(id).len() > 0 { Some(id) } else { None },
        None => None,
    };
    match id {
        None => {
            push_diag(diagnostics, source, crate::text::concat3(suite, " case requires a non-empty string id", ""));
            proof { reveal_strlit(""); }
            assert(diagnostic_views(diagnostics@) =~= d0 + case_header_check(suite@, source@, value@).0);
        },
        Some(id) => {
            if !valid_case_id(id) {
                push_diag(diagnostics, source, crate::text::concat5("invalid ", suite, " case identifier `", id, "`"));
                valid = false;
            }
            assert(diagnostic_views(diagnostics@) =~= d0 + case_header_check(suite@, source@, value@).0);
            if valid {
                cases.push(CaseHeader { id: crate::text::owned(id), source: crate::text::owned(source) });
                assert(cases@.take(old(cases)@.len() as int) =~= old(cases)@);
            }
        },
    }
}

/// The diagnostics of the case file `source` of `suite` with the text `text`, and its id
/// when its header is valid: a text that is no TOML document gives one diagnostic with the
/// parse error; a document is checked by `case_header_check`.
pub open spec fn case_text_check(suite: Seq<char>, source: Seq<char>, text: Seq<char>) -> (Seq<DiagnosticView>, Option<Seq<char>>) {
    match toml_document(text) {
        Err(e) => (seq![diag(source, "invalid case TOML: "@ + e)], None),
        Ok(v) => case_header_check(suite, source, v),
    }
}

/// Parses and checks the case file `source` of `suite` (`cpu` or `bus`) with the text
/// `text`; records its problems and, when its header is valid, the case.
pub fn check_case_text(suite: &str, source: &str, text: &str, cases: &mut Vec<CaseHeader>, diagnostics: &mut Vec<Diagnostic>)
    ensures
        diagnostic_views(final(diagnostics)@) == diagnostic_views(old(diagnostics)@) + case_text_check(suite@, source@, text@).0,
        match case_text_check(suite@, source@, text@).1 {
            Some(id) => final(cases)@.len() == old(cases)@.len() + 1
                && final(cases)@.take(old(cases)@.len() as int) == old(cases)@
                && final(cases)@.last().id@ == id && final(cases)@.last().source@ == source@,
            None => final(cases)@ == old(cases)@,
        },
{
    match parse_toml(text) {
        Err(e) => {
            let ghost d0 = diagnostic_views(diagnostics@);
            push_diag(diagnostics, source, crate::text::concat3("invalid case TOML: ", e.as_str(), ""));
            proof { reveal_strlit(""); }
            assert(diagnostic_views(diagnostics@) =~= d0 + case_text_check(suite@, source@, text@).0);
        },
        Ok(value) => check_case_header(suite, source, &value, cases, diagnostics),
    }
}

/// A requirement of the coverage manifest, as read from a fragment.
#[derive(Debug, Clone)]
pub struct Requirement {
    pub id: String,
    pub spec: String,
    pub cases: Vec<String>,
    pub source: String,
}

/// The mathematical content of a `Requirement`.
pub struct RequirementView {
    pub id: Seq<char>,
    pub spec: Seq<char>,
    pub cases: Seq<Seq<char>>,
    pub source: Seq<char>,
}

impl View for Requirement {
    type V = RequirementView;

    open spec fn view(&self) -> RequirementView {
        RequirementView {
            id: self.id@,
            spec: self.spec@,
            cases: string_views(self.cases@),
            source: self.source@,
        }
    }
}

/// The views of a list of strings.
pub open spec fn string_views(s: Seq<String>) -> Seq<Seq<char>> {
    s.map_values(|c: String| c@)
}

/// The views of a list of requirements.
pub open spec fn requirement_views(s: Seq<Requirement>) -> Seq<RequirementView> {
    s.map_values(|r: Requirement| r@)
}

/// Whether a table has an entry named `key`.
pub open spec fn toml_has(t: Seq<(Seq<char>, TomlValueView)>, key: Seq<char>) -> bool {
    toml_get(t, key) is Some
}

/// The strings among `vs`, in order.
pub open spec fn strings_of(vs: Seq<TomlValueView>) -> Seq<Seq<char>>
    decreases vs.len(),
{
    if vs.len() == 0 {
        Seq::empty()
    } else {
        strings_of(vs.drop_last()) + match vs.last() {
            TomlValueView::Text(s) => seq![s],
            _ => Seq::empty(),
        }
    }
}

/// One "must contain only strings" diagnostic for each non-string among `vs`.
pub open spec fn non_string_diags(vs: Seq<TomlValueView>, source: Seq<char>, id: Seq<char>) -> Seq<DiagnosticView>
    decreases vs.len(),
{
    if vs.len() == 0 {
        Seq::empty()
    } else {
        non_string_diags(vs.drop_last(), source, id) + match vs.last() {
            TomlValueView::Text(_) => Seq::empty(),
            _ => seq![diag(source, "requirement "@ + id + " cases must contain only strings"@)],
        }
    }
}

/// One diagnostic for each case reference that repeats an earlier one, in order.
pub open spec fn duplicate_case_diags(cs: Seq<Seq<char>>, source: Seq<char>, id: Seq<char>) -> Seq<DiagnosticView>
    decreases cs.len(),
{
    if cs.len() == 0 {
        Seq::empty()
    } else {
        duplicate_case_diags(cs.drop_last(), source, id) + if cs.drop_last().contains(cs.last()) {
            seq![diag(source, "requirement "@ + id + " contains duplicate case reference `"@ + cs.last() + "`"@)]
        } else {
            Seq::empty()
        }
    }
}

/// The diagnostics of one requirement entry of a fragment, and the requirement when the
/// entry is valid.
pub open spec fn requirement_check(source: Seq<char>, entry: TomlValueView) -> (Seq<DiagnosticView>, Option<RequirementView>) {
    match entry {
        TomlValueView::Table(t) => {
            if t.len() != 4 || !(toml_has(t, "id"@) && toml_has(t, "spec"@) && toml_has(t, "statement"@) && toml_has(t, "cases"@)) {
                (seq![diag(source, "requirement fields must be exactly id, spec, statement, and cases"@)], None)
            } else {
                match get_str(t, "id"@) {
                    None => (seq![diag(source, "requirement id must be a string"@)], None),
                    Some(id) => match get_str(t, "spec"@) {
                        None => (seq![diag(source, "requirement "@ + id + " spec must be a string"@)], None),
                        Some(spec) => match get_str(t, "statement"@) {
                            None => (seq![diag(source, "requirement "@ + id + " statement must be a string"@)], None),
                            Some(statement) => match get_array(t, "cases"@) {
                                None => (seq![diag(source, "requirement "@ + id + " cases must be an array of strings"@)], None),
                                Some(cs) => {
                                    let ids = strings_of(cs);
                                    let d0 = non_string_diags(cs, source, id);
                                    let d1 = if !requirement_id_ok(id) {
                                        seq![diag(source, "invalid requirement id `"@ + id + "`"@)]
                                    } else {
                                        Seq::empty()
                                    };
                                    let d2 = if trim(statement).len() == 0 {
                                        seq![diag(source, "requirement "@ + id + " statement must not be empty"@)]
                                    } else {
                                        Seq::empty()
                                    };
                                    let d3 = if ids.len() == 0 {
                                        seq![diag(source, "requirement "@ + id + " cases must not be empty"@)]
                                    } else {
                                        Seq::empty()
                                    };
                                    let d4 = duplicate_case_diags(ids, source, id);
                                    let all = d0 + d1 + d2 + d3 + d4;
                                    (all, if all.len() == 0 {
                                        Some(RequirementView { id, spec, cases: ids, source })
                                    } else {
                                        None
                                    })
                                },
                            },
                        },
                    },
                }
            }
        },
        _ => (seq![diag(source, "each requirement must be a table"@)], None),
    }
}

proof fn lemma_no_duplicate_diags(cs: Seq<Seq<char>>, source: Seq<char>, id: Seq<char>)
    requires
        duplicate_case_diags(cs, source, id).len() == 0,
    ensures
        forall|i: int, j: int| 0 <= i < j < cs.len() ==> cs[i] != cs[j],
    decreases cs.len(),
{
    if cs.len() > 0 {
        let p = cs.drop_last();
        lemma_no_duplicate_diags(p, source, id);
        assert(!p.contains(cs.last()));
        assert forall|i: int, j: int| 0 <= i < j < cs.len() implies cs[i] != cs[j] by {
            if j == cs.len() - 1 {
                assert(p[i] == cs[i]);
            } else {
                assert(p[i] == cs[i] && p[j] == cs[j]);
            }
        }
    }
}

/// A requirement entry is accepted exactly when it draws no diagnostic, and an accepted
/// requirement is well formed: a valid requirement id, at least one case, no case listed
/// twice, and the fragment it came from.
pub proof fn lemma_accepted_requirement(source: Seq<char>, entry: TomlValueView)
    ensures
        requirement_check(source, entry).1 is Some <==> requirement_check(source, entry).0.len() == 0,
        requirement_check(source, entry).1 matches Some(r) ==> {
            &&& requirement_id_ok(r.id)
            &&& r.cases.len() > 0
            &&& (forall|i: int, j: int| 0 <= i < j < r.cases.len() ==> r.cases[i] != r.cases[j])
            &&& r.source == source
        },
{
    if let TomlValueView::Table(t) = entry {
        if t.len() == 4 && toml_has(t, "id"@) && toml_has(t, "spec"@) && toml_has(t, "statement"@) && toml_has(t, "cases"@) {
            if let Some(id) = get_str(t, "id"@) {
                if let Some(_) = get_str(t, "spec"@) {
                    if let Some(_) = get_str(t, "statement"@) {
                        if let Some(cs) = get_array(t, "cases"@) {
                            let ids = strings_of(cs);
                            let d4 = duplicate_case_diags(ids, source, id);
                            if requirement_check(source, entry).0.len() == 0 {
                                assert(d4.len() == 0);
                                lemma_no_duplicate_diags(ids, source, id);
                            }
                        }
                    }
                }
            }
        }
    }
}

fn contains_string_upto(v: &[String], n: usize, s: &str) -> (b: bool)
    requires
        n <= v@.len(),
    ensures
        b == string_views(v@.take(n as int)).contains(s@),
{
    let ghost w = string_views(v@.take(n as int));
    let mut k: usize = 0;
    while k < n
        invariant
            k <= n <= v@.len(),
            w == string_views(v@.take(n as int)),
            forall|j: int| 0 <= j < k ==> (#[trigger] v@[j])@ != s@,
        decreases n - k,
    {
        if crate::text::str_eq(v[k].as_str(), s) {
            assert(w[k as int] == s@);
            return true;
        }
        k = k + 1;
    }
    proof {
        if w.contains(s@) {
            let j = choose|j: int| 0 <= j < w.len() && w[j] == s@;
            assert(v@[j]@ == s@);
        }
    }
    false
}

/// Checks one requirement entry of a fragment read from `source`; records its problems
/// and, when it is valid, the requirement.
pub fn check_requirement(source: &str, entry: &TomlValue, requirements: &mut Vec<Requirement>, diagnostics: &mut Vec<Diagnostic>)
    ensures
        diagnostic_views(final(diagnostics)@) == diagnostic_views(old(diagnostics)@) + requirement_check(source@, entry@).0,
        requirement_views(final(requirements)@) == requirement_views(old(requirements)@) + match requirement_check(source@, entry@).1 {
            Some(r) => seq![r],
            None => Seq::empty(),
        },
{
    let ghost d0 = diagnostic_views(diagnostics@);
    let start_count = diagnostics.len();
    let ghost r0 = requirement_views(requirements@);
    let ghost spec_result = requirement_check(source@, entry@);
    proof { lemma_toml_view(*entry); }
    let t = match entry {
        TomlValue::Table(t) => t.as_slice(),
        _ => {
            push_diag(diagnostics, source, crate::text::owned("each requirement must be a table"));
            assert(requirement_views(requirements@) =~= r0 + Seq::<RequirementView>::empty());
            return;
        },
    };
    let has_all = toml_find(t, "id").is_some() && toml_find(t, "spec").is_some()
        && toml_find(t, "statement").is_some() && toml_find(t, "cases").is_some();
    if t.len() != 4 || !has_all {
        push_diag(diagnostics, source, crate::text::owned("requirement fields must be exactly id, spec, statement, and cases"));
        assert(requirement_views(requirements@) =~= r0 + Seq::<RequirementView>::empty());
        return;
    }
    let id = match find_str(t, "id") {
        Some(id) => id,
        None => {
            push_diag(diagnostics, source, crate::text::owned("requirement id must be a string"));
            assert(requirement_views(requirements@) =~= r0 + Seq::<RequirementView>::empty());
            return;
        },
    };
    let spec = match find_str(t, "spec") {
        Some(s) => s,
        None => {
            push_diag(diagnostics, source, crate::text::concat3("requirement ", id, " spec must be a string"));
            assert(requirement_views(requirements@) =~= r0 + Seq::<RequirementView>::empty());
            return;
        },
    };
    let statement = match find_str(t, "statement") {
        Some(s) => s,
        None => {
            push_diag(diagnostics, source, crate::text::concat3("requirement ", id, " statement must be a string"));
            assert(requirement_views(requirements@) =~= r0 + Seq::<RequirementView>::empty());
            return;
        },
    };
    let case_values = match find_array(t, "cases") {
        Some(a) => a,
        None => {
            push_diag(diagnostics, source, crate::text::concat3("requirement ", id, " cases must be an array of strings"));
            assert(requirement_views(requirements@) =~= r0 + Seq::<RequirementView>::empty());
            return;
        },
    };
    let ghost cs = array_view(case_values@);
    let mut case_ids: Vec<String> = Vec::new();
    let mut k: usize = 0;
    assert(cs.take(0) =~= Seq::<TomlValueView>::empty());
    assert(diagnostic_views(diagnostics@) =~= d0 + non_string_diags(cs.take(0), source@, id@));
    while k < case_values.len()
        invariant
            k <= cs.len(),
            cs == array_view(case_values@),
            diagnostic_views(diagnostics@) == d0 + non_string_diags(cs.take(k as int), source@, id@),
            string_views(case_ids@) == strings_of(cs.take(k as int)),
        decreases cs.len() - k,
    {
        assert(cs.take(k + 1).drop_last() =~= cs.take(k as int));
        let ghost before_d = diagnostic_views(diagnostics@);
        let ghost before_c = string_views(case_ids@);
        assert(cs.take(k + 1).last() == case_values@[k as int]@);
        match &case_values[k] {
            TomlValue::Text(c) => {
                case_ids.push(c.clone());
                assert(string_views(case_ids@) =~= before_c + seq![c@]);
                assert(diagnostic_views(diagnostics@) =~= before_d + Seq::<DiagnosticView>::empty());
            },
            _ => {
                push_diag(diagnostics, source, crate::text::concat3("requirement ", id, " cases must contain only strings"));
                assert(string_views(case_ids@) =~= before_c + Seq::<Seq<char>>::empty());
            },
        }
        k = k + 1;
    }
    assert(cs.take(k as int) =~= cs);
    let ghost ids = strings_of(cs);
    let ghost d_after0 = diagnostic_views(diagnostics@);
    if !valid_requirement_id(id) {
        push_diag(diagnostics, source, crate::text::concat3("invalid requirement id `", id, "`"));
    }
    let trimmed = crate::chars::trim_chars(str_chars(statement).as_slice());
    if trimmed.len() == 0 {
        push_diag(diagnostics, source, crate::text::concat3("requirement ", id, " statement must not be empty"));
    }
    if case_ids.len() == 0 {
        push_diag(diagnostics, source, crate::text::concat3("requirement ", id, " cases must not be empty"));
    }
    let ghost d_before_dup = diagnostic_views(diagnostics@);
    let mut j: usize = 0;
    assert(ids.take(0) =~= Seq::<Seq<char>>::empty());
    assert(diagnostic_views(diagnostics@) =~= d_before_dup + duplicate_case_diags(ids.take(0), source@, id@));
    while j < case_ids.len()
        invariant
            j <= case_ids@.len(),
            string_views(case_ids@) == ids,
            diagnostic_views(diagnostics@) == d_before_dup + duplicate_case_diags(ids.take(j as int), source@, id@),
        decreases case_ids@.len() - j,
    {
        assert(ids.take(j + 1).drop_last() =~= ids.take(j as int));
        let c = case_ids[j].as_str();
        let ghost before = diagnostic_views(diagnostics@);
        let seen = contains_string_upto(case_ids.as_slice(), j, c);
        assert(string_views(case_ids@.take(j as int)) =~= ids.take(j as int));
        assert(ids.take(j + 1).last() == c@);
        if seen {
            push_diag(diagnostics, source, crate::text::concat5("requirement ", id, " contains duplicate case reference `", c, "`"));
        } else {
            assert(diagnostic_views(diagnostics@) =~= before + Seq::<DiagnosticView>::empty());
        }
        j = j + 1;
    }
    assert(ids.take(j as int) =~= ids);
    let ghost all = diagnostic_views(diagnostics@).skip(d0.len() as int);
    assert(diagnostic_views(diagnostics@) =~= d0 + spec_result.0);
    if diagnostics.len() == start_count {
        let ghost rv = RequirementView { id: id@, spec: spec@, cases: ids, source: source@ };
        requirements.push(Requirement {
            id: crate::text::owned(id),
            spec: crate::text::owned(spec),
            cases: case_ids,
            source: crate::text::owned(source),
        });
        assert(requirement_views(requirements@) =~= r0 + seq![rv]);
    } else {
        assert(requirement_views(requirements@) =~= r0 + Seq::<RequirementView>::empty());
    }
}

/// Diagnostics and requirements of the entries `es`, in order.
pub open spec fn entries_check(source: Seq<char>, es: Seq<TomlValueView>) -> (Seq<DiagnosticView>, Seq<RequirementView>)
    decreases es.len(),
{
    if es.len() == 0 {
        (Seq::empty(), Seq::empty())
    } else {
        let (d, r) = entries_check(source, es.drop_last());
        let (d1, r1) = requirement_check(source, es.last());
        (d + d1, r + match r1 {
            Some(x) => seq![x],
            None => Seq::empty(),
        })
    }
}

/// The diagnostics and requirements of a coverage fragment read from `source`: a table
/// whose only key is `requirements`, a nonempty array of requirement entries.
pub open spec fn fragment_check(source: Seq<char>, v: TomlValueView) -> (Seq<DiagnosticView>, Seq<RequirementView>) {
    match v {
        TomlValueView::Table(t) => {
            let d0 = if t.len() != 1 || !toml_has(t, "requirements"@) {
                seq![diag(source, "coverage fragment may contain only top-level requirements"@)]
            } else {
                Seq::empty()
            };
            match get_array(t, "requirements"@) {
                None => (d0 + seq![diag(source, "coverage fragment requires an array of requirements"@)], Seq::empty()),
                Some(es) => if es.len() == 0 {
                    (d0 + seq![diag(source, "coverage fragment requirements must not be empty"@)], Seq::empty())
                } else {
                    let (d, r) = entries_check(source, es);
                    (d0 + d, r)
                },
            }
        },
        _ => (seq![diag(source, "coverage fragment top-level must be a table"@)], Seq::empty()),
    }
}

/// Checks a coverage fragment read from `source`; records its problems and its valid
/// requirements.
pub fn parse_fragment(source: &str, value: &TomlValue, requirements: &mut Vec<Requirement>, diagnostics: &mut Vec<Diagnostic>)
    ensures
        diagnostic_views(final(diagnostics)@) == diagnostic_views(old(diagnostics)@) + fragment_check(source@, value@).0,
        requirement_views(final(requirements)@) == requirement_views(old(requirements)@) + fragment_check(source@, value@).1,
{
    let ghost d0 = diagnostic_views(diagnostics@);
    let ghost r0 = requirement_views(requirements@);
    proof { lemma_toml_view(*value); }
    let t = match value {
        TomlValue::Table(t) => t.as_slice(),
        _ => {
            push_diag(diagnostics, source, crate::text::owned("coverage fragment top-level must be a table"));
            assert(requirement_views(requirements@) =~= r0 + Seq::<RequirementView>::empty());
            return;
        },
    };
    if t.len() != 1 || toml_find(t, "requirements").is_none() {
        push_diag(diagnostics, source, crate::text::owned("coverage fragment may contain only top-level requirements"));
    }
    let ghost d1 = diagnostic_views(diagnostics@);
    let entries = match find_array(t, "requirements") {
        Some(a) => a,
        None => {
            push_diag(diagnostics, source, crate::text::owned("coverage fragment requires an array of requirements"));
            assert(requirement_views(requirements@) =~= r0 + Seq::<RequirementView>::empty());
            return;
        },
    };
    if entries.len() == 0 {
        push_diag(diagnostics, source, crate::text::owned("coverage fragment requirements must not be empty"));
        assert(requirement_views(requirements@) =~= r0 + Seq::<RequirementView>::empty());
        return;
    }
    let ghost es = array_view(entries@);
    let mut k: usize = 0;
    assert(es.take(0) =~= Seq::<TomlValueView>::empty());
    assert(diagnostic_views(diagnostics@) =~= d1 + entries_check(source@, es.take(0)).0);
    assert(requirement_views(requirements@) =~= r0 + entries_check(source@, es.take(0)).1);
    while k < entries.len()
        invariant
            k <= es.len(),
            es == array_view(entries@),
            diagnostic_views(diagnostics@) == d1 + entries_check(source@, es.take(k as int)).0,
            requirement_views(requirements@) == r0 + entries_check(source@, es.take(k as int)).1,
        decreases es.len() - k,
    {
        assert(es.take(k + 1).drop_last() =~= es.take(k as int));
        assert(es.take(k + 1).last() == entries@[k as int]@);
        check_requirement(source, &entries[k], requirements, diagnostics);
        k = k + 1;
        assert(diagnostic_views(diagnostics@) =~= d1 + entries_check(source@, es.take(k as int)).0);
        assert(requirement_views(requirements@) =~= r0 + entries_check(source@, es.take(k as int)).1);
    }
    assert(es.take(k as int) =~= es);
}

/// The diagnostics and requirements of the coverage fragment `source` with the text `text`:
/// a text that is no TOML document gives one diagnostic with the parse error; a document
/// is checked by `fragment_check`.
pub open spec fn fragment_text_check(source: Seq<char>, text: Seq<char>) -> (Seq<DiagnosticView>, Seq<RequirementView>) {
    match toml_document(text) {
        Err(e) => (seq![diag(source, "invalid coverage TOML: "@ + e)], Seq::empty()),
        Ok(v) => fragment_check(source, v),
    }
}

/// Parses and checks the coverage fragment `source` with the text `text`; records its
/// problems and its valid requirements.
pub fn parse_fragment_text(source: &str, text: &str, requirements: &mut Vec<Requirement>, diagnostics: &mut Vec<Diagnostic>)
    ensures
        diagnostic_views(final(diagnostics)@) == diagnostic_views(old(diagnostics)@) + fragment_text_check(source@, text@).0,
        requirement_views(final(requirements)@) == requirement_views(old(requirements)@) + fragment_text_check(source@, text@).1,
{
    match parse_toml(text) {
        Err(e) => {
            let ghost d0 = diagnostic_views(diagnostics@);
            let ghost r0 = requirement_views(requirements@);
            push_diag(diagnostics, source, crate::text::concat3("invalid coverage TOML: ", e.as_str(), ""));
            proof { reveal_strlit(""); }
            assert(diagnostic_views(diagnostics@) =~= d0 + fragment_text_check(source@, text@).0);
            assert(requirement_views(requirements@) =~= r0 + fragment_text_check(source@, text@).1);
        },
        Ok(value) => parse_fragment(source, &value, requirements, diagnostics),
    }
}

/// The ids and sources of a list of cases.
pub open spec fn header_views(cases: Seq<CaseHeader>) -> Seq<(Seq<char>, Seq<char>)> {
    cases.map_values(|c: CaseHeader| (c.id@, c.source@))
}

/// The index of the last case before `k` with id `id`.
pub open spec fn last_with_id(cases: Seq<(Seq<char>, Seq<char>)>, k: int, id: Seq<char>) -> Option<int>
    decreases k,
{
    if k <= 0 {
        None
    } else if cases[k - 1].0 == id {
        Some(k - 1)
    } else {
        last_with_id(cases, k - 1, id)
    }
}

/// One diagnostic for each case whose id an earlier case already has, naming the most
/// recent earlier file with that id.
pub open spec fn case_id_diags(cases: Seq<(Seq<char>, Seq<char>)>, k: nat) -> Seq<DiagnosticView>
    decreases k,
{
    if k == 0 {
        Seq::empty()
    } else {
        let c = cases[k - 1];
        case_id_diags(cases, (k - 1) as nat) + match last_with_id(cases, k - 1, c.0) {
            Some(j) => seq![diag(c.1, "duplicate case id `"@ + c.0 + "` (also in "@ + cases[j].1 + ")"@)],
            None => Seq::empty(),
        }
    }
}

/// Reports each case id used by more than one case file.
pub fn validate_case_ids(cases: &[CaseHeader], diagnostics: &mut Vec<Diagnostic>)
    ensures
        diagnostic_views(final(diagnostics)@) == diagnostic_views(old(diagnostics)@) + case_id_diags(header_views(cases@), cases@.len()),
{
    let ghost d0 = diagnostic_views(diagnostics@);
    let ghost hv = header_views(cases@);
    let mut k: usize = 0;
    while k < cases.len()
        invariant
            k <= cases@.len(),
            hv == header_views(cases@),
            diagnostic_views(diagnostics@) == d0 + case_id_diags(hv, k as nat),
        decreases cases@.len() - k,
    {
        let c = &cases[k];
        let mut previous: Option<usize> = None;
        let mut j: usize = 0;
        while j < k
            invariant
                j <= k < cases@.len(),
                *c == cases@[k as int],
                hv == header_views(cases@),
                match previous {
                    Some(p) => last_with_id(hv, j as int, c.id@) == Some(p as int),
                    None => last_with_id(hv, j as int, c.id@) is None,
                },
                previous matches Some(p) ==> p < j,
            decreases k - j,
        {
            assert(hv[j as int] == (cases@[j as int].id@, cases@[j as int].source@));
            if crate::text::str_eq(cases[j].id.as_str(), c.id.as_str()) {
                previous = Some(j);
            }
            j = j + 1;
        }
        let ghost before = diagnostic_views(diagnostics@);
        match previous {
            Some(p) => {
                let m = crate::text::concat5("duplicate case id `", c.id.as_str(), "` (also in ", cases[p].source.as_str(), ")");
                push_diag(diagnostics, c.source.as_str(), m);
            },
            None => {
                assert(diagnostic_views(diagnostics@) =~= before + Seq::<DiagnosticView>::empty());
            },
        }
        assert(hv[k as int] == (c.id@, c.source@));
        assert(previous matches Some(p) ==> hv[p as int] == (cases@[p as int].id@, cases@[p as int].source@));
        k = k + 1;
        assert(diagnostic_views(diagnostics@) =~= d0 + case_id_diags(hv, k as nat));
    }
}

// ---------------------------------------------------------------------------------------
// Specification references `path#anchor`.

/// Matches `/`.
pub open spec fn slash_pred() -> spec_fn(char) -> bool {
    |c: char| c == '/'
}

/// Matches `#`.
pub open spec fn hash_pred() -> spec_fn(char) -> bool {
    |c: char| c == '#'
}

/// The `/`-separated parts of a path, empty ones included.
pub open spec fn segments(p: Seq<char>) -> Seq<Seq<char>>
    decreases p.len(),
{
    let i = crate::chars::find(p, slash_pred());
    if i >= p.len() {
        seq![p]
    } else {
        seq![p.take(i as int)] + segments(p.skip(i as int + 1))
    }
}

/// The last part of a path that names something: not empty and not `.`.
pub open spec fn last_normal(ss: Seq<Seq<char>>) -> Option<Seq<char>>
    decreases ss.len(),
{
    if ss.len() == 0 {
        None
    } else if ss.last().len() > 0 && ss.last() != "."@ {
        Some(ss.last())
    } else {
        last_normal(ss.drop_last())
    }
}

/// The index of the last `.` in `s`, if any.
pub open spec fn last_dot(s: Seq<char>) -> Option<int>
    decreases s.len(),
{
    if s.len() == 0 {
        None
    } else if s.last() == '.' {
        Some(s.len() - 1)
    } else {
        last_dot(s.drop_last())
    }
}

/// The extension of a file name: what follows its last `.`, unless that dot starts the
/// name.
pub open spec fn extension(name: Seq<char>) -> Option<Seq<char>> {
    match last_dot(name) {
        Some(i) => if i == 0 { None } else { Some(name.skip(i + 1)) },
        None => None,
    }
}

/// A relative path to a Markdown file that stays below its root: no leading `/`, no
/// leading `.` part, no `..` part, and a file name with the extension `md`.
pub open spec fn spec_path_ok(p: Seq<char>) -> bool {
    let ss = segments(p);
    &&& !(p.len() > 0 && p[0] == '/')
    &&& ss[0] != "."@
    &&& !ss.contains(".."@)
    &&& match last_normal(ss) {
        Some(name) => extension(name) == Some("md"@),
        None => false,
    }
}

/// The path and anchor of the reference `spec` of requirement `id`, or the problem with it.
pub open spec fn spec_reference_check(id: Seq<char>, spec: Seq<char>) -> Result<(Seq<char>, Seq<char>), Seq<char>> {
    let h = crate::chars::find(spec, hash_pred());
    if h >= spec.len() {
        Err("requirement "@ + id + " spec must be path#anchor"@)
    } else {
        let path = spec.take(h as int);
        let anchor = spec.skip(h as int + 1);
        if anchor.contains('#') || path.len() == 0 || anchor.len() == 0 || spec.contains('?') || path.contains('\\') {
            Err("invalid spec reference `"@ + spec + "`"@)
        } else if !spec_path_ok(path) {
            Err("invalid spec path `"@ + path + "`"@)
        } else {
            Ok((path, anchor))
        }
    }
}

fn split_segments(p: &[char]) -> (r: Vec<Vec<char>>)
    ensures
        char_views(r@) == segments(p@),
{
    let mut out: Vec<Vec<char>> = Vec::new();
    let mut pos: usize = 0;
    assert(p@.skip(0) =~= p@);
    assert(char_views(out@) =~= Seq::<Seq<char>>::empty());
    loop
        invariant
            pos <= p@.len(),
            segments(p@) == char_views(out@) + segments(p@.skip(pos as int)),
        decreases p@.len() - pos,
    {
        let ghost rest = p@.skip(pos as int);
        let mut e = pos;
        while e < p.len() && p[e] != '/'
            invariant
                pos <= e <= p@.len(),
                forall|j: int| pos <= j < e ==> p@[j] != '/',
            decreases p@.len() - e,
        {
            e = e + 1;
        }
        proof {
            assert forall|j: int| 0 <= j < e - pos implies !(slash_pred())(#[trigger] rest[j]) by {
                assert(rest[j] == p@[j + pos]);
            }
            if e < p@.len() {
                assert(rest[e - pos] == p@[e as int]);
            }
            crate::chars::lemma_find_is_first(rest, slash_pred(), e - pos);
        }
        let part = copy_range(p, pos, e);
        assert(part@ =~= rest.take(e - pos));
        let ghost before = char_views(out@);
        out.push(part);
        assert(char_views(out@) =~= before + seq![part@]);
        if e >= p.len() {
            assert(segments(rest) == seq![part@]);
            assert(segments(p@) =~= char_views(out@));
            return out;
        }
        assert(rest.skip(e - pos + 1) =~= p@.skip(e + 1));
        pos = e + 1;
        assert(segments(p@) =~= char_views(out@) + segments(p@.skip(pos as int)));
    }
}

fn is_dot(s: &[char]) -> (b: bool)
    ensures
        b == (s@ == "."@),
{
    proof { reveal_strlit("."); }
    let r = s.len() == 1 && s[0] == '.';
    proof {
        if s@.len() == 1 && s@[0] == '.' {
            assert(s@ =~= "."@);
        }
    }
    r
}

fn is_dot_dot(s: &[char]) -> (b: bool)
    ensures
        b == (s@ == ".."@),
{
    proof { reveal_strlit(".."); }
    let r = s.len() == 2 && s[0] == '.' && s[1] == '.';
    proof {
        if s@.len() == 2 && s@[0] == '.' && s@[1] == '.' {
            assert(s@ =~= ".."@);
        }
    }
    r
}

fn path_ok_exec(p: &[char]) -> (b: bool)
    ensures
        b == spec_path_ok(p@),
{
    if p.len() > 0 && p[0] == '/' {
        return false;
    }
    let ss = split_segments(p);
    let ghost sv = char_views(ss@);
    proof {
        reveal_with_fuel(segments, 1);
    }
    assert(sv.len() > 0);
    if is_dot(ss[0].as_slice()) {
        return false;
    }
    let mut k: usize = 0;
    while k < ss.len()
        invariant
            sv == char_views(ss@),
            sv == segments(p@),
            k <= ss@.len(),
            forall|j: int| 0 <= j < k ==> sv[j] != ".."@,
        decreases ss@.len() - k,
    {
        assert(sv[k as int] == ss@[k as int]@);
        if is_dot_dot(ss[k].as_slice()) {
            assert(sv[k as int] == ".."@);
            assert(sv.contains(".."@));
            return false;
        }
        k = k + 1;
    }
    assert(!sv.contains(".."@));
    match file_extension(p) {
        Some(ext) => {
            proof { reveal_strlit("md"); }
            let ok = ext.len() == 2 && ext[0] == 'm' && ext[1] == 'd';
            proof {
                if ok {
                    assert(ext@ =~= "md"@);
                } else if ext@ == "md"@ {
                    assert(ext@.len() == 2);
                }
            }
            ok
        },
        None => false,
    }
}

/// The extension of the file name of a path, as `Path::extension` gives it.
pub fn file_extension(p: &[char]) -> (r: Option<Vec<char>>)
    ensures
        match last_normal(segments(p@)) {
            Some(name) => match extension(name) {
                Some(e) => r matches Some(x) && x@ == e,
                None => r is None,
            },
            None => r is None,
        },
{
    let ss = split_segments(p);
    let ghost sv = char_views(ss@);
    let mut n: usize = ss.len();
    assert(sv.take(n as int) =~= sv);
    while n > 0 && (ss[n - 1].len() == 0 || is_dot(ss[n - 1].as_slice()))
        invariant
            sv == char_views(ss@),
            n <= ss@.len(),
            last_normal(sv) == last_normal(sv.take(n as int)),
        decreases n,
    {
        assert(sv.take(n - 1) =~= sv.take(n as int).drop_last());
        n = n - 1;
    }
    if n == 0 {
        return None;
    }
    assert(sv.take(n as int).last() == sv[n - 1]);
    let name = &ss[n - 1];
    assert(last_normal(sv) == Some(name@));
    let mut d: usize = name.len();
    assert(name@.take(d as int) =~= name@);
    while d > 0 && name[d - 1] != '.'
        invariant
            d <= name@.len(),
            last_dot(name@) == last_dot(name@.take(d as int)),
        decreases d,
    {
        assert(name@.take(d - 1) =~= name@.take(d as int).drop_last());
        d = d - 1;
    }
    if d == 0 {
        return None;
    }
    assert(last_dot(name@.take(d as int)) == Some(d - 1));
    if d - 1 == 0 {
        return None;
    }
    let ext = copy_range(name.as_slice(), d, name.len());
    assert(ext@ =~= name@.skip(d as int));
    Some(ext)
}

fn contains_char(s: &[char], c: char) -> (b: bool)
    ensures
        b == s@.contains(c),
{
    let mut k: usize = 0;
    while k < s.len()
        invariant
            k <= s@.len(),
            forall|j: int| 0 <= j < k ==> s@[j] != c,
        decreases s@.len() - k,
    {
        if s[k] == c {
            assert(s@[k as int] == c);
            return true;
        }
        k = k + 1;
    }
    false
}

/// Splits the reference `spec` of requirement `id` into its path and anchor, or names the
/// problem with it: a missing `#`, a malformed reference, or a path that is not a relative
/// Markdown path below the specification root.
pub fn check_spec_reference(id: &str, spec: &str) -> (r: Result<(String, String), String>)
    ensures
        match spec_reference_check(id@, spec@) {
            Ok((p, a)) => r matches Ok((x, y)) && x@ == p && y@ == a,
            Err(m) => r matches Err(x) && x@ == m,
        },
{
    let s = str_chars(spec);
    let mut h: usize = 0;
    while h < s.len() && s[h] != '#'
        invariant
            h <= s@.len(),
            s@ == spec@,
            forall|j: int| 0 <= j < h ==> s@[j] != '#',
        decreases s@.len() - h,
    {
        h = h + 1;
    }
    proof {
        assert forall|j: int| 0 <= j < h implies !(hash_pred())(#[trigger] s@[j]) by {}
        crate::chars::lemma_find_is_first(s@, hash_pred(), h as int);
    }
    if h >= s.len() {
        return Err(crate::text::concat3("requirement ", id, " spec must be path#anchor"));
    }
    let path = copy_range(s.as_slice(), 0, h);
    let anchor = copy_range(s.as_slice(), h + 1, s.len());
    assert(path@ =~= s@.take(h as int));
    assert(anchor@ =~= s@.skip(h + 1));
    let bad = contains_char(anchor.as_slice(), '#') || path.len() == 0 || anchor.len() == 0
        || contains_char(s.as_slice(), '?') || contains_char(path.as_slice(), '\\');
    if bad {
        return Err(crate::text::concat3("invalid spec reference `", spec, "`"));
    }
    let path_text = chars_to_string(path.as_slice());
    if !path_ok_exec(path.as_slice()) {
        return Err(crate::text::concat3("invalid spec path `", path_text.as_str(), "`"));
    }
    Ok((path_text, chars_to_string(anchor.as_slice())))
}

// ---------------------------------------------------------------------------------------
// Anchors of a specification document.

/// Lexicographic order of character sequences, by code point (the order of `String`).
pub open spec fn lex_lt(a: Seq<char>, b: Seq<char>) -> bool
    decreases a.len(),
{
    if a.len() == 0 {
        b.len() > 0
    } else if b.len() == 0 {
        false
    } else if a[0] != b[0] {
        a[0] < b[0]
    } else {
        lex_lt(a.drop_first(), b.drop_first())
    }
}

/// No sequence comes before itself.
pub proof fn lemma_lex_irreflexive(a: Seq<char>)
    ensures
        !lex_lt(a, a),
    decreases a.len(),
{
    if a.len() > 0 {
        lemma_lex_irreflexive(a.drop_first());
    }
}

/// The lexicographic order is transitive.
pub proof fn lemma_lex_transitive(a: Seq<char>, b: Seq<char>, c: Seq<char>)
    requires
        lex_lt(a, b),
        lex_lt(b, c),
    ensures
        lex_lt(a, c),
    decreases a.len(),
{
    if a.len() > 0 && b.len() > 0 && c.len() > 0 && a[0] == b[0] && b[0] == c[0] {
        lemma_lex_transitive(a.drop_first(), b.drop_first(), c.drop_first());
    }
}

/// Of two different sequences, one comes before the other.
pub proof fn lemma_lex_total(a: Seq<char>, b: Seq<char>)
    requires
        a != b,
    ensures
        lex_lt(a, b) || lex_lt(b, a),
    decreases a.len(),
{
    if a.len() == 0 {
        if b.len() == 0 {
            assert(a =~= b);
        }
    } else if b.len() > 0 && a[0] == b[0] {
        if a.drop_first() == b.drop_first() {
            assert(a =~= seq![a[0]] + a.drop_first());
            assert(b =~= seq![b[0]] + b.drop_first());
        }
        lemma_lex_total(a.drop_first(), b.drop_first());
    }
}

/// A list in strictly increasing order.
pub open spec fn strictly_sorted(s: Seq<Seq<char>>) -> bool {
    forall|i: int, j: int| 0 <= i < j < s.len() ==> lex_lt(#[trigger] s[i], #[trigger] s[j])
}

/// Two strictly increasing lists with the same elements are equal.
pub proof fn lemma_sorted_unique(d1: Seq<Seq<char>>, d2: Seq<Seq<char>>)
    requires
        strictly_sorted(d1),
        strictly_sorted(d2),
        forall|x: Seq<char>| d1.contains(x) <==> d2.contains(x),
    ensures
        d1 == d2,
    decreases d1.len(),
{
    if d1.len() == 0 {
        if d2.len() > 0 {
            assert(d2.contains(d2[0]));
        }
        assert(d1 =~= d2);
    } else {
        assert(d1.contains(d1[0]));
        let j = choose|j: int| 0 <= j < d2.len() && d2[j] == d1[0];
        assert(d2.contains(d2[0]));
        let i = choose|i: int| 0 <= i < d1.len() && d1[i] == d2[0];
        if j > 0 {
            assert(lex_lt(d2[0], d2[j]));
            if i == 0 {
                lemma_lex_irreflexive(d2[0]);
            } else {
                assert(lex_lt(d1[0], d1[i]));
                lemma_lex_transitive(d1[0], d1[i], d1[0]);
                lemma_lex_irreflexive(d1[0]);
            }
        }
        assert(d1[0] == d2[0]);
        let t1 = d1.drop_first();
        let t2 = d2.drop_first();
        assert forall|x: Seq<char>| t1.contains(x) <==> t2.contains(x) by {
            if t1.contains(x) {
                let a = choose|a: int| 0 <= a < t1.len() && t1[a] == x;
                assert(lex_lt(d1[0], d1[a + 1]));
                assert(d1.contains(x));
                let b = choose|b: int| 0 <= b < d2.len() && d2[b] == x;
                if b == 0 {
                    lemma_lex_irreflexive(x);
                }
                assert(t2[b - 1] == x);
            }
            if t2.contains(x) {
                let a = choose|a: int| 0 <= a < t2.len() && t2[a] == x;
                assert(lex_lt(d2[0], d2[a + 1]));
                assert(d2.contains(x));
                let b = choose|b: int| 0 <= b < d1.len() && d1[b] == x;
                if b == 0 {
                    lemma_lex_irreflexive(x);
                }
                assert(t1[b - 1] == x);
            }
        }
        assert forall|a: int, b: int| 0 <= a < b < t1.len() implies lex_lt(#[trigger] t1[a], #[trigger] t1[b]) by {
            assert(lex_lt(d1[a + 1], d1[b + 1]));
        }
        assert forall|a: int, b: int| 0 <= a < b < t2.len() implies lex_lt(#[trigger] t2[a], #[trigger] t2[b]) by {
            assert(lex_lt(d2[a + 1], d2[b + 1]));
        }
        lemma_sorted_unique(t1, t2);
        assert(d1 =~= seq![d1[0]] + t1);
        assert(d2 =~= seq![d2[0]] + t2);
    }
}

/// Number of occurrences of `x` in `s`.
pub open spec fn count_of(s: Seq<Seq<char>>, x: Seq<char>) -> nat
    decreases s.len(),
{
    if s.len() == 0 {
        0
    } else {
        count_of(s.drop_last(), x) + if s.last() == x { 1nat } else { 0nat }
    }
}

/// `d` lists, in increasing order, each anchor that occurs more than once in `anchors`.
pub open spec fn is_duplicate_list(anchors: Seq<Seq<char>>, d: Seq<Seq<char>>) -> bool {
    &&& strictly_sorted(d)
    &&& forall|x: Seq<char>| d.contains(x) <==> count_of(anchors, x) >= 2
}

/// The anchors that occur more than once, in increasing order.
pub open spec fn duplicate_anchors(anchors: Seq<Seq<char>>) -> Seq<Seq<char>> {
    choose|d: Seq<Seq<char>>| is_duplicate_list(anchors, d)
}

/// The elements of `s`, separated by `, `.
pub open spec fn join_list(s: Seq<Seq<char>>) -> Seq<char>
    decreases s.len(),
{
    if s.len() == 0 {
        Seq::empty()
    } else if s.len() == 1 {
        s[0]
    } else {
        join_list(s.drop_last()) + ", "@ + s.last()
    }
}

/// The problems of the anchor `anchor` in the document `path` with the heading anchors
/// `anchors`: anchors generated more than once, then an anchor that is not generated
/// exactly once.
pub open spec fn anchor_problems(path: Seq<char>, anchor: Seq<char>, anchors: Seq<Seq<char>>) -> Seq<Seq<char>> {
    let dups = duplicate_anchors(anchors);
    (if dups.len() > 0 {
        seq!["spec document `"@ + path + "` generates duplicate heading anchors: "@ + join_list(dups)]
    } else {
        Seq::empty()
    }) + (if count_of(anchors, anchor) != 1 {
        seq!["spec anchor `"@ + anchor + "` is missing or ambiguous in `"@ + path + "`"@]
    } else {
        Seq::empty()
    })
}

pub(crate) fn lex_lt_exec(a: &[char], b: &[char]) -> (r: bool)
    ensures
        r == lex_lt(a@, b@),
{
    let mut k: usize = 0;
    assert(a@.skip(0) =~= a@);
    assert(b@.skip(0) =~= b@);
    while k < a.len() && k < b.len() && a[k] == b[k]
        invariant
            k <= a@.len(),
            k <= b@.len(),
            lex_lt(a@, b@) == lex_lt(a@.skip(k as int), b@.skip(k as int)),
        decreases a@.len() - k,
    {
        assert(a@.skip(k as int).drop_first() =~= a@.skip(k + 1));
        assert(b@.skip(k as int).drop_first() =~= b@.skip(k + 1));
        k = k + 1;
    }
    proof {
        assert(a@.skip(k as int).len() == a@.len() - k);
        if k < a@.len() {
            assert(a@.skip(k as int)[0] == a@[k as int]);
        }
        if k < b@.len() {
            assert(b@.skip(k as int)[0] == b@[k as int]);
        }
    }
    if k == a.len() {
        k < b.len()
    } else if k == b.len() {
        false
    } else {
        a[k] < b[k]
    }
}

fn count_exec(s: &[String], x: &str) -> (n: usize)
    ensures
        n == count_of(string_views(s@), x@),
{
    let ghost sv = string_views(s@);
    let mut n: usize = 0;
    let mut k: usize = 0;
    assert(sv.take(0) =~= Seq::<Seq<char>>::empty());
    while k < s.len()
        invariant
            k <= s@.len(),
            sv == string_views(s@),
            n == count_of(sv.take(k as int), x@),
            n <= k,
        decreases s@.len() - k,
    {
        assert(sv.take(k + 1).drop_last() =~= sv.take(k as int));
        assert(sv[k as int] == s@[k as int]@);
        if crate::text::str_eq(s[k].as_str(), x) {
            n = n + 1;
        }
        k = k + 1;
    }
    assert(sv.take(k as int) =~= sv);
    n
}

proof fn lemma_count_positive(s: Seq<Seq<char>>, k: int)
    requires
        0 <= k < s.len(),
    ensures
        count_of(s, s[k]) >= 1,
    decreases s.len(),
{
    if k < s.len() - 1 {
        lemma_count_positive(s.drop_last(), k);
    }
}

proof fn lemma_count_witness(s: Seq<Seq<char>>, x: Seq<char>)
    requires
        count_of(s, x) >= 1,
    ensures
        s.contains(x),
    decreases s.len(),
{
    if s.last() != x {
        lemma_count_witness(s.drop_last(), x);
        let i = choose|i: int| 0 <= i < s.drop_last().len() && s.drop_last()[i] == x;
        assert(s[i] == x);
    } else {
        assert(s[s.len() - 1] == x);
    }
}

/// The anchors that occur more than once among `anchors`, in increasing order.
pub fn find_duplicate_anchors(anchors: &[String]) -> (d: Vec<String>)
    ensures
        is_duplicate_list(string_views(anchors@), string_views(d@)),
{
    let ghost av = string_views(anchors@);
    let mut out: Vec<String> = Vec::new();
    let mut k: usize = 0;
    while k < anchors.len()
        invariant
            k <= anchors@.len(),
            av == string_views(anchors@),
            strictly_sorted(string_views(out@)),
            forall|x: Seq<char>| string_views(out@).contains(x)
                <==> (count_of(av, x) >= 2 && av.take(k as int).contains(x)),
        decreases anchors@.len() - k,
    {
        let ghost ov = string_views(out@);
        let a = anchors[k].as_str();
        assert(av[k as int] == a@);
        let ghost t0 = av.take(k as int);
        let ghost t1 = av.take(k + 1);
        assert forall|x: Seq<char>| t1.contains(x) <==> (t0.contains(x) || x == a@) by {
            if t1.contains(x) {
                let i = choose|i: int| 0 <= i < t1.len() && t1[i] == x;
                if i < k {
                    assert(t0[i] == x);
                }
            }
            if t0.contains(x) {
                let i = choose|i: int| 0 <= i < t0.len() && t0[i] == x;
                assert(t1[i] == x);
            }
            if x == a@ {
                assert(t1[k as int] == x);
            }
        }
        let ghost mut added = false;
        let cnt = count_exec(anchors, a);
        if cnt >= 2 {
            // Position of the first listed anchor that does not come before `a`.
            let mut p: usize = 0;
            while p < out.len() && lex_lt_exec(str_chars(out[p].as_str()).as_slice(), str_chars(a).as_slice())
                invariant
                    p <= out@.len(),
                    ov == string_views(out@),
                    forall|i: int| 0 <= i < p ==> lex_lt(#[trigger] ov[i], a@),
                decreases out@.len() - p,
            {
                p = p + 1;
            }
            let present = p < out.len() && crate::text::str_eq(out[p].as_str(), a);
            if !present {
                proof {
                    if p < ov.len() {
                        assert(!lex_lt(ov[p as int], a@));
                        lemma_lex_total(ov[p as int], a@);
                    }
                    assert(!ov.contains(a@)) by {
                        if ov.contains(a@) {
                            let i = choose|i: int| 0 <= i < ov.len() && ov[i] == a@;
                            if i < p {
                                lemma_lex_irreflexive(a@);
                            } else if i > p {
                                assert(lex_lt(ov[p as int], ov[i]));
                                lemma_lex_transitive(a@, ov[p as int], ov[i]);
                                lemma_lex_irreflexive(a@);
                            }
                        }
                    }
                }
                out.insert(p, crate::text::owned(a));
                proof {
                    added = true;
                    let nv = string_views(out@);
                    assert(nv =~= ov.insert(p as int, a@));
                    assert forall|i: int, j: int| 0 <= i < j < nv.len() implies lex_lt(#[trigger] nv[i], #[trigger] nv[j]) by {
                        if j < p {
                            assert(lex_lt(ov[i], ov[j]));
                        } else if j == p {
                            assert(nv[j] == a@);
                        } else if i < p {
                            assert(nv[j] == ov[j - 1]);
                            assert(lex_lt(ov[i], a@));
                            if j - 1 == p {
                                assert(lex_lt(a@, ov[p as int]));
                            } else {
                                assert(lex_lt(ov[p as int], ov[j - 1]));
                                lemma_lex_transitive(a@, ov[p as int], ov[j - 1]);
                            }
                            lemma_lex_transitive(ov[i], a@, ov[j - 1]);
                        } else if i == p {
                            assert(nv[j] == ov[j - 1]);
                            if j - 1 > p {
                                assert(lex_lt(ov[p as int], ov[j - 1]));
                                lemma_lex_transitive(a@, ov[p as int], ov[j - 1]);
                            }
                        } else {
                            assert(lex_lt(ov[i - 1], ov[j - 1]));
                        }
                    }
                    assert forall|x: Seq<char>| nv.contains(x) <==> (ov.contains(x) || x == a@) by {
                        if nv.contains(x) {
                            let i = choose|i: int| 0 <= i < nv.len() && nv[i] == x;
                            if i < p {
                                assert(ov[i] == x);
                            } else if i > p {
                                assert(ov[i - 1] == x);
                            }
                        }
                        if ov.contains(x) {
                            let i = choose|i: int| 0 <= i < ov.len() && ov[i] == x;
                            if i < p {
                                assert(nv[i] == x);
                            } else {
                                assert(nv[i + 1] == x);
                            }
                        }
                        if x == a@ {
                            assert(nv[p as int] == x);
                        }
                    }
                }
            } else {
                proof {
                    assert(ov[p as int] == a@);
                    assert(ov.contains(a@));
                }
            }
        }
        proof {
            let nv = string_views(out@);
            if !added {
                assert(nv =~= ov);
            }
            assert(cnt == count_of(av, a@));
            assert(t1.contains(a@));
            assert forall|x: Seq<char>| nv.contains(x) <==> (count_of(av, x) >= 2 && t1.contains(x)) by {
                if x == a@ {
                    if cnt >= 2 {
                        if added {
                            assert(nv.contains(x));
                        } else {
                            assert(ov.contains(a@));
                            assert(nv.contains(x));
                        }
                    } else {
                        assert(ov.contains(a@) <==> (count_of(av, a@) >= 2 && t0.contains(a@)));
                        assert(!ov.contains(a@));
                        assert(!nv.contains(x));
                    }
                } else {
                    assert(ov.contains(x) <==> (count_of(av, x) >= 2 && t0.contains(x)));
                    assert(nv.contains(x) == ov.contains(x));
                    assert(t1.contains(x) == t0.contains(x));
                }
            }
        }
        k = k + 1;
    }
    proof {
        assert(av.take(k as int) =~= av);
        let dv = string_views(out@);
        assert forall|x: Seq<char>| dv.contains(x) <==> count_of(av, x) >= 2 by {
            assert(dv.contains(x) <==> (count_of(av, x) >= 2 && av.take(k as int).contains(x)));
            if count_of(av, x) >= 2 {
                lemma_count_witness(av, x);
            }
        }
    }
    out
}

fn join_exec(s: &[String]) -> (r: Vec<char>)
    ensures
        r@ == join_list(string_views(s@)),
{
    let ghost sv = string_views(s@);
    let mut out: Vec<char> = Vec::new();
    let mut k: usize = 0;
    assert(sv.take(0) =~= Seq::<Seq<char>>::empty());
    while k < s.len()
        invariant
            k <= s@.len(),
            sv == string_views(s@),
            out@ == join_list(sv.take(k as int)),
        decreases s@.len() - k,
    {
        assert(sv.take(k + 1).drop_last() =~= sv.take(k as int));
        assert(sv[k as int] == s@[k as int]@);
        if k > 0 {
            crate::text::push_str(&mut out, ", ");
        }
        crate::text::push_str(&mut out, s[k].as_str());
        k = k + 1;
        proof {
            if k == 1 {
                assert(sv.take(1) =~= seq![sv[0]]);
            }
        }
    }
    assert(sv.take(k as int) =~= sv);
    out
}

/// The problems of the reference `path#anchor` in the document `text`: heading anchors
/// that the document generates more than once, then an anchor that it does not generate
/// exactly once.
pub fn check_anchor(path: &str, anchor: &str, text: &str) -> (r: Vec<String>)
    ensures
        string_views(r@) == anchor_problems(path@, anchor@, anchors_of(lines(text@))),
{
    let anchors = markdown_anchors(text);
    let ghost av = string_views(anchors@);
    let dups = find_duplicate_anchors(anchors.as_slice());
    proof {
        let dv = string_views(dups@);
        let chosen = duplicate_anchors(av);
        assert(is_duplicate_list(av, chosen));
        lemma_sorted_unique(dv, chosen);
    }
    let mut out: Vec<String> = Vec::new();
    if dups.len() > 0 {
        let mut v: Vec<char> = Vec::new();
        crate::text::push_str(&mut v, "spec document `");
        crate::text::push_str(&mut v, path);
        crate::text::push_str(&mut v, "` generates duplicate heading anchors: ");
        let joined = join_exec(dups.as_slice());
        let mut k: usize = 0;
        let ghost head = v@;
        while k < joined.len()
            invariant
                k <= joined@.len(),
                v@ == head + joined@.take(k as int),
            decreases joined@.len() - k,
        {
            v.push(joined[k]);
            k = k + 1;
            assert(v@ =~= head + joined@.take(k as int));
        }
        assert(joined@.take(k as int) =~= joined@);
        out.push(chars_to_string(v.as_slice()));
    }
    let ghost o1 = string_views(out@);
    if count_exec(anchors.as_slice(), anchor) != 1 {
        let mut v: Vec<char> = Vec::new();
        crate::text::push_str(&mut v, "spec anchor `");
        crate::text::push_str(&mut v, anchor);
        crate::text::push_str(&mut v, "` is missing or ambiguous in `");
        crate::text::push_str(&mut v, path);
        crate::text::push_str(&mut v, "`");
        out.push(chars_to_string(v.as_slice()));
        assert(string_views(out@) =~= o1.push(v@));
    }
    assert(string_views(out@) =~= anchor_problems(path@, anchor@, av));
    out
}

// ---------------------------------------------------------------------------------------
// Requirements against cases.

/// The ids of a list of cases.
pub open spec fn case_ids_of(cases: Seq<(Seq<char>, Seq<char>)>) -> Seq<Seq<char>> {
    cases.map_values(|c: (Seq<char>, Seq<char>)| c.0)
}

/// Diagnostics about `source` with the messages `ms`.
pub open spec fn diags_of(source: Seq<char>, ms: Seq<Seq<char>>) -> Seq<DiagnosticView> {
    ms.map_values(|m: Seq<char>| diag(source, m))
}

/// One diagnostic for each of the first `k` case references of `r` that names no case.
pub open spec fn missing_upto(r: RequirementView, ids: Seq<Seq<char>>, k: nat) -> Seq<DiagnosticView>
    decreases k,
{
    if k == 0 {
        Seq::empty()
    } else {
        let c = r.cases[k - 1];
        missing_upto(r, ids, (k - 1) as nat) + if ids.contains(c) {
            Seq::empty()
        } else {
            seq![diag(r.source, "requirement "@ + r.id + " references missing case `"@ + c + "`"@)]
        }
    }
}

/// The views of lists of messages.
pub open spec fn message_views(msgs: Seq<Vec<String>>) -> Seq<Seq<Seq<char>>> {
    msgs.map_values(|v: Vec<String>| string_views(v@))
}

/// The spec-reference messages of requirement `i`: none when `msgs` has no entry for it.
pub open spec fn spec_messages_of(msgs: Seq<Seq<Seq<char>>>, i: int) -> Seq<Seq<char>> {
    if 0 <= i < msgs.len() { msgs[i] } else { Seq::empty() }
}

/// The diagnostics of requirement `i`: a repeated id, the problems of its specification
/// reference, then each case reference that names no case.
pub open spec fn requirement_diags(reqs: Seq<RequirementView>, msgs: Seq<Seq<Seq<char>>>, cases: Seq<(Seq<char>, Seq<char>)>, i: int) -> Seq<DiagnosticView> {
    let r = reqs[i];
    (if exists|j: int| 0 <= j < i && (#[trigger] reqs[j]).id == r.id {
        seq![diag(r.source, "duplicate requirement id `"@ + r.id + "`"@)]
    } else {
        Seq::empty()
    }) + diags_of(r.source, spec_messages_of(msgs, i)) + missing_upto(r, case_ids_of(cases), r.cases.len())
}

/// The diagnostics of the first `k` requirements.
pub open spec fn requirements_upto(reqs: Seq<RequirementView>, msgs: Seq<Seq<Seq<char>>>, cases: Seq<(Seq<char>, Seq<char>)>, k: nat) -> Seq<DiagnosticView>
    decreases k,
{
    if k == 0 {
        Seq::empty()
    } else {
        requirements_upto(reqs, msgs, cases, (k - 1) as nat) + requirement_diags(reqs, msgs, cases, k - 1)
    }
}

/// Whether some requirement lists the case id `id`.
pub open spec fn referenced(reqs: Seq<RequirementView>, id: Seq<char>) -> bool {
    exists|i: int| 0 <= i < reqs.len() && (#[trigger] reqs[i]).cases.contains(id)
}

/// One diagnostic for each of the first `k` cases that no requirement lists.
pub open spec fn uncovered_upto(reqs: Seq<RequirementView>, cases: Seq<(Seq<char>, Seq<char>)>, k: nat) -> Seq<DiagnosticView>
    decreases k,
{
    if k == 0 {
        Seq::empty()
    } else {
        let c = cases[k - 1];
        uncovered_upto(reqs, cases, (k - 1) as nat) + if referenced(reqs, c.0) {
            Seq::empty()
        } else {
            seq![diag(c.1, "case `"@ + c.0 + "` is not referenced by any requirement"@)]
        }
    }
}

fn has_case(cases: &[CaseHeader], id: &str) -> (b: bool)
    ensures
        b == case_ids_of(header_views(cases@)).contains(id@),
{
    let ghost ids = case_ids_of(header_views(cases@));
    let mut k: usize = 0;
    while k < cases.len()
        invariant
            k <= cases@.len(),
            ids == case_ids_of(header_views(cases@)),
            forall|j: int| 0 <= j < k ==> ids[j] != id@,
        decreases cases@.len() - k,
    {
        assert(ids[k as int] == cases@[k as int].id@);
        if crate::text::str_eq(cases[k].id.as_str(), id) {
            return true;
        }
        k = k + 1;
    }
    false
}

fn is_referenced(requirements: &[Requirement], id: &str) -> (b: bool)
    ensures
        b == referenced(requirement_views(requirements@), id@),
{
    let ghost rv = requirement_views(requirements@);
    let mut i: usize = 0;
    while i < requirements.len()
        invariant
            i <= requirements@.len(),
            rv == requirement_views(requirements@),
            forall|j: int| 0 <= j < i ==> !(#[trigger] rv[j]).cases.contains(id@),
        decreases requirements@.len() - i,
    {
        let cs = requirements[i].cases.as_slice();
        assert(rv[i as int].cases == string_views(cs@));
        if contains_string_upto(cs, cs.len(), id) {
            assert(cs@.take(cs@.len() as int) =~= cs@);
            return true;
        }
        assert(cs@.take(cs@.len() as int) =~= cs@);
        i = i + 1;
    }
    false
}

/// Checks the requirements against the cases: each requirement id once, the problems of
/// each specification reference (`spec_messages[i]` for requirement `i`), each case
/// reference naming a case; then each case listed by some requirement.
pub fn validate_requirements(requirements: &[Requirement], spec_messages: &[Vec<String>], cases: &[CaseHeader], diagnostics: &mut Vec<Diagnostic>)
    ensures
        diagnostic_views(final(diagnostics)@) == diagnostic_views(old(diagnostics)@)
            + requirements_upto(requirement_views(requirements@), message_views(spec_messages@), header_views(cases@), requirements@.len())
            + uncovered_upto(requirement_views(requirements@), header_views(cases@), cases@.len()),
{
    let ghost d0 = diagnostic_views(diagnostics@);
    let ghost rv = requirement_views(requirements@);
    let ghost mv = message_views(spec_messages@);
    let ghost hv = header_views(cases@);
    let mut i: usize = 0;
    while i < requirements.len()
        invariant
            i <= requirements@.len(),
            rv == requirement_views(requirements@),
            mv == message_views(spec_messages@),
            hv == header_views(cases@),
            diagnostic_views(diagnostics@) == d0 + requirements_upto(rv, mv, hv, i as nat),
        decreases requirements@.len() - i,
    {
        let r = &requirements[i];
        assert(rv[i as int] == r@);
        let ghost before = diagnostic_views(diagnostics@);
        let mut dup = false;
        let mut j: usize = 0;
        while j < i
            invariant
                j <= i < requirements@.len(),
                *r == requirements@[i as int],
                rv == requirement_views(requirements@),
                dup == exists|x: int| 0 <= x < j && (#[trigger] rv[x]).id == r.id@,
            decreases i - j,
        {
            assert(rv[j as int] == requirements@[j as int]@);
            if crate::text::str_eq(requirements[j].id.as_str(), r.id.as_str()) {
                dup = true;
            }
            j = j + 1;
        }
        if dup {
            push_diag(diagnostics, r.source.as_str(), crate::text::concat3("duplicate requirement id `", r.id.as_str(), "`"));
        }
        let ghost after_dup = diagnostic_views(diagnostics@);
        if i < spec_messages.len() {
            let ms = &spec_messages[i];
            assert(mv[i as int] == string_views(ms@));
            let mut k: usize = 0;
            while k < ms.len()
                invariant
                    k <= ms@.len(),
                    diagnostic_views(diagnostics@) == after_dup + diags_of(r.source@, string_views(ms@).take(k as int)),
                decreases ms@.len() - k,
            {
                let ghost b = diagnostic_views(diagnostics@);
                push_diag(diagnostics, r.source.as_str(), ms[k].clone());
                k = k + 1;
                assert(diags_of(r.source@, string_views(ms@).take(k as int)) =~= diags_of(r.source@, string_views(ms@).take(k - 1)).push(diag(r.source@, ms@[k - 1]@)));
            }
            assert(string_views(ms@).take(k as int) =~= string_views(ms@));
        } else {
            assert(diags_of(r.source@, Seq::<Seq<char>>::empty()) =~= Seq::<DiagnosticView>::empty());
            assert(diagnostic_views(diagnostics@) =~= after_dup + diags_of(r.source@, spec_messages_of(mv, i as int)));
        }
        let ghost after_spec = diagnostic_views(diagnostics@);
        let mut k: usize = 0;
        assert(after_spec =~= after_spec + missing_upto(r@, case_ids_of(hv), 0));
        while k < r.cases.len()
            invariant
                k <= r.cases@.len(),
                hv == header_views(cases@),
                diagnostic_views(diagnostics@) == after_spec + missing_upto(r@, case_ids_of(hv), k as nat),
            decreases r.cases@.len() - k,
        {
            let c = r.cases[k].as_str();
            assert(r@.cases[k as int] == c@);
            let ghost b = diagnostic_views(diagnostics@);
            if !has_case(cases, c) {
                push_diag(diagnostics, r.source.as_str(), crate::text::concat5("requirement ", r.id.as_str(), " references missing case `", c, "`"));
            } else {
                assert(diagnostic_views(diagnostics@) =~= b + Seq::<DiagnosticView>::empty());
            }
            k = k + 1;
        }
        i = i + 1;
        assert(diagnostic_views(diagnostics@) =~= d0 + requirements_upto(rv, mv, hv, i as nat));
    }
    let ghost d1 = diagnostic_views(diagnostics@);
    let mut k: usize = 0;
    assert(d1 =~= d1 + uncovered_upto(rv, hv, 0));
    while k < cases.len()
        invariant
            k <= cases@.len(),
            rv == requirement_views(requirements@),
            hv == header_views(cases@),
            diagnostic_views(diagnostics@) == d1 + uncovered_upto(rv, hv, k as nat),
        decreases cases@.len() - k,
    {
        let c = &cases[k];
        assert(hv[k as int] == (c.id@, c.source@));
        let ghost b = diagnostic_views(diagnostics@);
        if !is_referenced(requirements, c.id.as_str()) {
            push_diag(diagnostics, c.source.as_str(), crate::text::concat3("case `", c.id.as_str(), "` is not referenced by any requirement"));
        } else {
            assert(diagnostic_views(diagnostics@) =~= b + Seq::<DiagnosticView>::empty());
        }
        k = k + 1;
    }
}

/// The error results of the coverage problems `diagnostics`, each under its source, or
/// `root` when it has none.
pub fn coverage_results(diagnostics: &[Diagnostic], root: &str) -> (r: Vec<crate::report::CaseResult>)
    ensures
        r@.len() == diagnostics@.len(),
        forall|i: int| 0 <= i < r@.len() ==> crate::report::is_error(#[trigger] r@[i], "coverage"@,
            match diagnostics@[i].source {
                Some(s) => s@,
                None => root@,
            }, diagnostics@[i].message@),
{
    let mut out: Vec<crate::report::CaseResult> = Vec::new();
    let mut k: usize = 0;
    while k < diagnostics.len()
        invariant
            k <= diagnostics@.len(),
            out@.len() == k,
            forall|i: int| 0 <= i < k ==> crate::report::is_error(#[trigger] out@[i], "coverage"@,
                match diagnostics@[i].source {
                    Some(s) => s@,
                    None => root@,
                }, diagnostics@[i].message@),
        decreases diagnostics@.len() - k,
    {
        let d = &diagnostics[k];
        let source = match &d.source {
            Some(s) => s.clone(),
            None => crate::text::owned(root),
        };
        out.push(crate::report::CaseResult::error("coverage", source, d.message.clone()));
        k = k + 1;
    }
    out
}

// ---------------------------------------------------------------------------------------
// The whole suite.

/// One entry of the coverage directory: its source path, its file name when that name is
/// valid UTF-8, and whether it is a regular file.
pub type DirectoryEntry = (String, Option<String>, bool);

/// The file name of an entry, or the empty text when it is not UTF-8.
pub open spec fn entry_name(e: DirectoryEntry) -> Seq<char> {
    match e.1 {
        Some(n) => n@,
        None => Seq::empty(),
    }
}

/// Whether `name` ends in `.toml`.
pub open spec fn is_toml_name(name: Seq<char>) -> bool {
    name.len() >= 5 && name.skip(name.len() - 5) == ".toml"@
}

/// Whether an entry is a coverage fragment: a regular file whose UTF-8 name ends in
/// `.toml`.
pub open spec fn fragment_entry(e: DirectoryEntry) -> bool {
    e.2 && e.1 is Some && is_toml_name(entry_name(e))
}

/// The names of selected fragments.
pub open spec fn fragment_names(fs: Seq<(String, String)>) -> Seq<Seq<char>> {
    fs.map_values(|f: (String, String)| f.1@)
}

/// Whether `f` is the source and name of a fragment among `entries[0..n]`.
pub open spec fn selected_from(entries: Seq<DirectoryEntry>, n: int, f: (String, String)) -> bool {
    exists|i: int| 0 <= i < n && #[trigger] fragment_entry(entries[i]) && entries[i].0@ == f.0@ && entry_name(entries[i]) == f.1@
}

proof fn lemma_selected_from_grows(entries: Seq<DirectoryEntry>, n: int, f: (String, String))
    requires
        selected_from(entries, n, f),
    ensures
        selected_from(entries, n + 1, f),
{
    let i = choose|i: int| 0 <= i < n && #[trigger] fragment_entry(entries[i]) && entries[i].0@ == f.0@ && entry_name(entries[i]) == f.1@;
    assert(0 <= i < n + 1 && fragment_entry(entries[i]));
}

/// One diagnostic, in order, for each regular file whose name is not UTF-8.
pub open spec fn non_utf8_diags(es: Seq<DirectoryEntry>) -> Seq<DiagnosticView>
    decreases es.len(),
{
    if es.len() == 0 {
        Seq::empty()
    } else {
        non_utf8_diags(es.drop_last()) + if es.last().2 && es.last().1 is None {
            seq![diag(es.last().0@, "coverage fragment filename must be valid UTF-8"@)]
        } else {
            Seq::empty()
        }
    }
}

fn is_toml_name_exec(name: &str) -> (b: bool)
    ensures
        b == is_toml_name(name@),
{
    let v = str_chars(name);
    let n = v.len();
    if n < 5 {
        return false;
    }
    let b = v[n - 5] == '.' && v[n - 4] == 't' && v[n - 3] == 'o' && v[n - 2] == 'm' && v[n - 1] == 'l';
    proof {
        reveal_strlit(".toml");
        let t = name@.skip(n - 5);
        if b {
            assert(t =~= ".toml"@);
        } else if t == ".toml"@ {
            assert(t[0] == '.' && t[1] == 't' && t[2] == 'o' && t[3] == 'm' && t[4] == 'l');
        }
    }
    b
}

/// Selects the coverage fragments among the entries of the coverage directory
/// `directory`: the regular files whose names are UTF-8 and end in `.toml`, each name
/// once, in increasing order of name. The diagnostics name, in entry order, each regular
/// file whose name is not UTF-8, then an empty selection.
pub fn select_fragments(directory: &str, entries: &[DirectoryEntry]) -> (r: (Vec<(String, String)>, Vec<Diagnostic>))
    ensures
        strictly_sorted(fragment_names(r.0@)),
        forall|k: int| 0 <= k < r.0@.len() ==> selected_from(entries@, entries@.len() as int, #[trigger] r.0@[k]),
        forall|i: int| 0 <= i < entries@.len() && #[trigger] fragment_entry(entries@[i]) ==>
            fragment_names(r.0@).contains(entry_name(entries@[i])),
        diagnostic_views(r.1@) == non_utf8_diags(entries@) + if r.0@.len() == 0 {
            seq![diag(directory@, "coverage directory contains no .toml fragments"@)]
        } else {
            Seq::<DiagnosticView>::empty()
        },
{
    let mut out: Vec<(String, String)> = Vec::new();
    let mut diagnostics: Vec<Diagnostic> = Vec::new();
    let mut k: usize = 0;
    assert(entries@.take(0) =~= Seq::<DirectoryEntry>::empty());
    assert(diagnostic_views(diagnostics@) =~= Seq::<DiagnosticView>::empty());
    while k < entries.len()
        invariant
            k <= entries@.len(),
            strictly_sorted(fragment_names(out@)),
            forall|q: int| 0 <= q < out@.len() ==> selected_from(entries@, k as int, #[trigger] out@[q]),
            forall|i: int| 0 <= i < k && #[trigger] fragment_entry(entries@[i]) ==>
                fragment_names(out@).contains(entry_name(entries@[i])),
            diagnostic_views(diagnostics@) == non_utf8_diags(entries@.take(k as int)),
        decreases entries@.len() - k,
    {
        assert(entries@.take(k + 1).drop_last() =~= entries@.take(k as int));
        let ghost db = diagnostic_views(diagnostics@);
        let e = &entries[k];
        if e.2 && e.1.is_none() {
            push_diag(&mut diagnostics, e.0.as_str(), crate::text::owned("coverage fragment filename must be valid UTF-8"));
        } else {
            assert(diagnostic_views(diagnostics@) =~= db + Seq::<DiagnosticView>::empty());
        }
        let mut inserted = false;
        if e.2 {
            if let Some(name) = &e.1 {
                if is_toml_name_exec(name.as_str()) {
                    let a = name.as_str();
                    assert(entry_name(entries@[k as int]) == a@);
                    insert_fragment(&mut out, e.0.as_str(), a, Ghost(entries@), Ghost(k as int));
                    inserted = true;
                }
            }
        }
        if !inserted {
            assert(!fragment_entry(entries@[k as int]));
            assert forall|q: int| 0 <= q < out@.len() implies selected_from(entries@, k + 1, #[trigger] out@[q]) by {
                lemma_selected_from_grows(entries@, k as int, out@[q]);
            }
        }
        k = k + 1;
    }
    assert(entries@.take(k as int) =~= entries@);
    if out.len() == 0 {
        push_diag(&mut diagnostics, directory, crate::text::owned("coverage directory contains no .toml fragments"));
    } else {
        let ghost d = diagnostic_views(diagnostics@);
        assert(d =~= d + Seq::<DiagnosticView>::empty());
    }
    (out, diagnostics)
}

/// Inserts the fragment `name` of `source`, entry `k` of `entries`, into the selection
/// `out`, kept in increasing order of name; a name already selected is not added again.
fn insert_fragment(out: &mut Vec<(String, String)>, source: &str, name: &str, Ghost(entries): Ghost<Seq<DirectoryEntry>>, Ghost(k): Ghost<int>)
    requires
        0 <= k < entries.len(),
        fragment_entry(entries[k]),
        entries[k].0@ == source@,
        entry_name(entries[k]) == name@,
        strictly_sorted(fragment_names(old(out)@)),
        forall|q: int| 0 <= q < old(out)@.len() ==> selected_from(entries, k, #[trigger] old(out)@[q]),
        forall|i: int| 0 <= i < k && #[trigger] fragment_entry(entries[i]) ==>
            fragment_names(old(out)@).contains(entry_name(entries[i])),
    ensures
        strictly_sorted(fragment_names(final(out)@)),
        forall|q: int| 0 <= q < final(out)@.len() ==> selected_from(entries, k + 1, #[trigger] final(out)@[q]),
        forall|i: int| 0 <= i < k + 1 && #[trigger] fragment_entry(entries[i]) ==>
            fragment_names(final(out)@).contains(entry_name(entries[i])),
{
    let ghost ov = fragment_names(out@);
    let ghost o = out@;
    let nm = str_chars(name);
    let mut p: usize = 0;
    while p < out.len() && lex_lt_exec(str_chars(out[p].1.as_str()).as_slice(), nm.as_slice())
        invariant
            p <= out@.len(),
            out@ == o,
            ov == fragment_names(o),
            nm@ == name@,
            forall|i: int| 0 <= i < p ==> lex_lt(#[trigger] ov[i], name@),
        decreases out@.len() - p,
    {
        assert(ov[p as int] == out@[p as int].1@);
        p = p + 1;
    }
    if p < out.len() {
        assert(ov[p as int] == out@[p as int].1@);
    }
    let present = p < out.len() && crate::text::str_eq(out[p].1.as_str(), name);
    if present {
        assert(ov[p as int] == name@);
        assert forall|i: int| 0 <= i < k + 1 && #[trigger] fragment_entry(entries[i]) implies
            fragment_names(out@).contains(entry_name(entries[i])) by {
            if i == k {
                assert(fragment_names(out@)[p as int] == name@);
            }
        }
        assert forall|q: int| 0 <= q < out@.len() implies selected_from(entries, k + 1, #[trigger] out@[q]) by {
            lemma_selected_from_grows(entries, k, out@[q]);
        }
        return;
    }
    proof {
        if p < ov.len() {
            assert(!lex_lt(ov[p as int], name@));
            lemma_lex_total(ov[p as int], name@);
        }
        assert(!ov.contains(name@)) by {
            if ov.contains(name@) {
                let i = choose|i: int| 0 <= i < ov.len() && ov[i] == name@;
                if i < p {
                    lemma_lex_irreflexive(name@);
                } else if i > p {
                    assert(lex_lt(ov[p as int], ov[i]));
                    lemma_lex_transitive(name@, ov[p as int], ov[i]);
                    lemma_lex_irreflexive(name@);
                }
            }
        }
    }
    let item = (crate::text::owned(source), crate::text::owned(name));
    out.insert(p, item);
    proof {
        let nv = fragment_names(out@);
        assert(out@ =~= o.insert(p as int, item));
        assert(nv =~= ov.insert(p as int, name@));
        assert forall|i: int, j: int| 0 <= i < j < nv.len() implies lex_lt(#[trigger] nv[i], #[trigger] nv[j]) by {
            if j < p {
                assert(lex_lt(ov[i], ov[j]));
            } else if j == p {
                assert(nv[j] == name@);
            } else if i < p {
                assert(nv[j] == ov[j - 1]);
                assert(lex_lt(ov[i], name@));
                if j - 1 == p {
                    assert(lex_lt(name@, ov[p as int]));
                } else {
                    assert(lex_lt(ov[p as int], ov[j - 1]));
                    lemma_lex_transitive(name@, ov[p as int], ov[j - 1]);
                }
                lemma_lex_transitive(ov[i], name@, ov[j - 1]);
            } else if i == p {
                assert(nv[j] == ov[j - 1]);
                if j - 1 > p {
                    assert(lex_lt(ov[p as int], ov[j - 1]));
                    lemma_lex_transitive(name@, ov[p as int], ov[j - 1]);
                }
            } else {
                assert(lex_lt(ov[i - 1], ov[j - 1]));
            }
        }
        assert forall|i: int| 0 <= i < k + 1 && #[trigger] fragment_entry(entries[i]) implies
            nv.contains(entry_name(entries[i])) by {
            if i == k {
                assert(nv[p as int] == name@);
            } else {
                let x = entry_name(entries[i]);
                let q = choose|q: int| 0 <= q < ov.len() && ov[q] == x;
                if q < p {
                    assert(nv[q] == x);
                } else {
                    assert(nv[q + 1] == x);
                }
            }
        }
        assert forall|q: int| 0 <= q < out@.len() implies selected_from(entries, k + 1, #[trigger] out@[q]) by {
            if q == p {
                assert(out@[q] == item);
                assert(fragment_entry(entries[k]) && entries[k].0@ == item.0@ && entry_name(entries[k]) == item.1@);
            } else {
                let q0 = if q < p { q } else { q - 1 };
                assert(out@[q] == o[q0]);
                assert(selected_from(entries, k, o[q0]));
                lemma_selected_from_grows(entries, k, o[q0]);
            }
        }
    }
}

/// Whether an entry is a case file: a regular file named `case.toml`.
pub open spec fn case_file_entry(e: DirectoryEntry) -> bool {
    e.2 && e.1 is Some && entry_name(e) == "case.toml"@
}

/// Whether `x` is the source of a case file among `entries[0..n]`.
pub open spec fn case_file_among(entries: Seq<DirectoryEntry>, n: int, x: Seq<char>) -> bool {
    exists|i: int| 0 <= i < n && #[trigger] case_file_entry(entries[i]) && entries[i].0@ == x
}

/// Inserts `a` into the strictly increasing list `out`, unless it is there already.
fn insert_sorted(out: &mut Vec<String>, a: &str)
    requires
        strictly_sorted(string_views(old(out)@)),
    ensures
        strictly_sorted(string_views(final(out)@)),
        forall|x: Seq<char>| string_views(final(out)@).contains(x) <==> (string_views(old(out)@).contains(x) || x == a@),
{
    let ghost ov = string_views(out@);
    let av = str_chars(a);
    let mut p: usize = 0;
    while p < out.len() && lex_lt_exec(str_chars(out[p].as_str()).as_slice(), av.as_slice())
        invariant
            p <= out@.len(),
            ov == string_views(out@),
            av@ == a@,
            forall|i: int| 0 <= i < p ==> lex_lt(#[trigger] ov[i], a@),
        decreases out@.len() - p,
    {
        p = p + 1;
    }
    let present = p < out.len() && crate::text::str_eq(out[p].as_str(), a);
    if present {
        assert(ov[p as int] == a@);
        return;
    }
    proof {
        if p < ov.len() {
            assert(!lex_lt(ov[p as int], a@));
            lemma_lex_total(ov[p as int], a@);
        }
        assert(!ov.contains(a@)) by {
            if ov.contains(a@) {
                let i = choose|i: int| 0 <= i < ov.len() && ov[i] == a@;
                if i < p {
                    lemma_lex_irreflexive(a@);
                } else if i > p {
                    assert(lex_lt(ov[p as int], ov[i]));
                    lemma_lex_transitive(a@, ov[p as int], ov[i]);
                    lemma_lex_irreflexive(a@);
                }
            }
        }
    }
    out.insert(p, crate::text::owned(a));
    proof {
        let nv = string_views(out@);
        assert(nv =~= ov.insert(p as int, a@));
        assert forall|i: int, j: int| 0 <= i < j < nv.len() implies lex_lt(#[trigger] nv[i], #[trigger] nv[j]) by {
            if j < p {
                assert(lex_lt(ov[i], ov[j]));
            } else if j == p {
                assert(nv[j] == a@);
            } else if i < p {
                assert(nv[j] == ov[j - 1]);
                assert(lex_lt(ov[i], a@));
                if j - 1 == p {
                    assert(lex_lt(a@, ov[p as int]));
                } else {
                    assert(lex_lt(ov[p as int], ov[j - 1]));
                    lemma_lex_transitive(a@, ov[p as int], ov[j - 1]);
                }
                lemma_lex_transitive(ov[i], a@, ov[j - 1]);
            } else if i == p {
                assert(nv[j] == ov[j - 1]);
                if j - 1 > p {
                    assert(lex_lt(ov[p as int], ov[j - 1]));
                    lemma_lex_transitive(a@, ov[p as int], ov[j - 1]);
                }
            } else {
                assert(lex_lt(ov[i - 1], ov[j - 1]));
            }
        }
        assert forall|x: Seq<char>| nv.contains(x) <==> (ov.contains(x) || x == a@) by {
            if nv.contains(x) {
                let i = choose|i: int| 0 <= i < nv.len() && nv[i] == x;
                if i < p {
                    assert(ov[i] == x);
                } else if i > p {
                    assert(ov[i - 1] == x);
                }
            }
            if ov.contains(x) {
                let i = choose|i: int| 0 <= i < ov.len() && ov[i] == x;
                if i < p {
                    assert(nv[i] == x);
                } else {
                    assert(nv[i + 1] == x);
                }
            }
            if x == a@ {
                assert(nv[p as int] == x);
            }
        }
    }
}

/// Selects the case files of a suite among the files found below its directory: the
/// regular files named `case.toml`, each source once, in increasing order of source.
pub fn select_case_files(entries: &[DirectoryEntry]) -> (r: Vec<String>)
    ensures
        strictly_sorted(string_views(r@)),
        forall|x: Seq<char>| string_views(r@).contains(x) <==> case_file_among(entries@, entries@.len() as int, x),
{
    let mut out: Vec<String> = Vec::new();
    let mut k: usize = 0;
    proof {
        reveal_strlit("case.toml");
    }
    while k < entries.len()
        invariant
            k <= entries@.len(),
            strictly_sorted(string_views(out@)),
            forall|x: Seq<char>| string_views(out@).contains(x) <==> case_file_among(entries@, k as int, x),
        decreases entries@.len() - k,
    {
        let e = &entries[k];
        let ghost before = string_views(out@);
        let is_case = match &e.1 {
            Some(name) => e.2 && crate::text::str_eq(name.as_str(), "case.toml"),
            None => false,
        };
        if is_case {
            insert_sorted(&mut out, e.0.as_str());
        }
        proof {
            assert(is_case == case_file_entry(entries@[k as int]));
            assert forall|x: Seq<char>| string_views(out@).contains(x) <==> case_file_among(entries@, k + 1, x) by {
                if case_file_among(entries@, k + 1, x) {
                    let i = choose|i: int| 0 <= i < k + 1 && #[trigger] case_file_entry(entries@[i]) && entries@[i].0@ == x;
                    if i < k {
                        assert(case_file_among(entries@, k as int, x));
                    }
                }
                if before.contains(x) {
                    let i = choose|i: int| 0 <= i < k && #[trigger] case_file_entry(entries@[i]) && entries@[i].0@ == x;
                    assert(0 <= i < k + 1);
                }
                if is_case && x == e.0@ {
                    assert(case_file_entry(entries@[k as int]) && entries@[k as int].0@ == x);
                }
            }
        }
        k = k + 1;
    }
    out
}

/// A case file as found: a problem finding or reading it, or its text with its suite
/// (`cpu` or `bus`) and source path.
#[derive(Debug)]
pub enum CaseInput {
    Problem(Diagnostic),
    File { suite: String, source: String, text: String },
}

/// A coverage fragment as found: a problem finding or reading it, or its text with its
/// source path.
#[derive(Debug)]
pub enum FragmentInput {
    Problem(Diagnostic),
    File { source: String, text: String },
}

/// A specification document named by a reference path: its text, or the message that
/// says why it cannot be used.
#[derive(Debug)]
pub struct SpecDocument {
    pub path: String,
    pub text: Result<String, String>,
}

/// Diagnostics and valid case headers of the case inputs, in order.
pub open spec fn case_inputs_check(cs: Seq<CaseInput>) -> (Seq<DiagnosticView>, Seq<(Seq<char>, Seq<char>)>)
    decreases cs.len(),
{
    if cs.len() == 0 {
        (Seq::empty(), Seq::empty())
    } else {
        let (d, h) = case_inputs_check(cs.drop_last());
        match cs.last() {
            CaseInput::Problem(p) => (d.push(p@), h),
            CaseInput::File { suite, source, text } => {
                let (d1, id) = case_text_check(suite@, source@, text@);
                (d + d1, match id {
                    Some(i) => h.push((i, source@)),
                    None => h,
                })
            },
        }
    }
}

/// Diagnostics and valid requirements of the fragment inputs, in order.
pub open spec fn fragment_inputs_check(fs: Seq<FragmentInput>) -> (Seq<DiagnosticView>, Seq<RequirementView>)
    decreases fs.len(),
{
    if fs.len() == 0 {
        (Seq::empty(), Seq::empty())
    } else {
        let (d, r) = fragment_inputs_check(fs.drop_last());
        match fs.last() {
            FragmentInput::Problem(p) => (d.push(p@), r),
            FragmentInput::File { source, text } => {
                let (d1, r1) = fragment_text_check(source@, text@);
                (d + d1, r + r1)
            },
        }
    }
}

/// The document given for `path`, if any: its text or the message against it.
pub open spec fn document_for(docs: Seq<SpecDocument>, path: Seq<char>) -> Option<Result<Seq<char>, Seq<char>>>
    decreases docs.len(),
{
    if docs.len() == 0 {
        None
    } else if docs[0].path@ == path {
        Some(match docs[0].text {
            Ok(t) => Ok(t@),
            Err(m) => Err(m@),
        })
    } else {
        document_for(docs.drop_first(), path)
    }
}

/// The problems of the specification reference of `r`: a malformed reference, a document
/// that cannot be used, or anchor problems in the document. A reference whose document is
/// not given is not checked further.
pub open spec fn reference_messages(r: RequirementView, docs: Seq<SpecDocument>) -> Seq<Seq<char>> {
    match spec_reference_check(r.id, r.spec) {
        Err(m) => seq![m],
        Ok((path, anchor)) => match document_for(docs, path) {
            None => Seq::empty(),
            Some(Err(m)) => seq![m],
            Some(Ok(text)) => anchor_problems(path, anchor, anchors_of(lines(text))),
        },
    }
}

/// All coverage problems of a suite, in order: case files, fragments, repeated case ids,
/// requirements against cases and documents, then cases that no requirement lists.
pub open spec fn suite_diagnostics(cs: Seq<CaseInput>, fs: Seq<FragmentInput>, docs: Seq<SpecDocument>) -> Seq<DiagnosticView> {
    let (d1, hs) = case_inputs_check(cs);
    let (d2, rs) = fragment_inputs_check(fs);
    let msgs = Seq::new(rs.len(), |i: int| reference_messages(rs[i], docs));
    d1 + d2 + case_id_diags(hs, hs.len()) + requirements_upto(rs, msgs, hs, rs.len()) + uncovered_upto(rs, hs, hs.len())
}

fn clone_diagnostic(d: &Diagnostic) -> (r: Diagnostic)
    ensures
        r@ == d@,
{
    Diagnostic {
        source: match &d.source {
            Some(s) => Some(s.clone()),
            None => None,
        },
        message: d.message.clone(),
    }
}

fn find_document<'a>(docs: &'a [SpecDocument], path: &str) -> (r: Option<&'a SpecDocument>)
    ensures
        match r {
            Some(d) => document_for(docs@, path@) == Some(match d.text {
                Ok(t) => Ok::<Seq<char>, Seq<char>>(t@),
                Err(m) => Err(m@),
            }),
            None => document_for(docs@, path@) is None,
        },
{
    let mut k: usize = 0;
    assert(docs@.skip(0) =~= docs@);
    while k < docs.len()
        invariant
            k <= docs@.len(),
            document_for(docs@, path@) == document_for(docs@.skip(k as int), path@),
        decreases docs@.len() - k,
    {
        assert(docs@.skip(k as int).drop_first() =~= docs@.skip(k + 1));
        if crate::text::str_eq(docs[k].path.as_str(), path) {
            return Some(&docs[k]);
        }
        k = k + 1;
    }
    None
}

/// The problems of the specification reference of requirement `r`.
pub fn reference_problems(r: &Requirement, documents: &[SpecDocument]) -> (m: Vec<String>)
    ensures
        string_views(m@) == reference_messages(r@, documents@),
{
    let mut out: Vec<String> = Vec::new();
    match check_spec_reference(r.id.as_str(), r.spec.as_str()) {
        Err(msg) => {
            out.push(msg);
            assert(string_views(out@) =~= reference_messages(r@, documents@));
        },
        Ok((path, anchor)) => match find_document(documents, path.as_str()) {
            None => {
                assert(string_views(out@) =~= reference_messages(r@, documents@));
            },
            Some(doc) => match &doc.text {
                Err(msg) => {
                    out.push(msg.clone());
                    assert(string_views(out@) =~= reference_messages(r@, documents@));
                },
                Ok(text) => {
                    out = check_anchor(path.as_str(), anchor.as_str(), text.as_str());
                },
            },
        },
    }
    out
}

/// Validates the coverage of a suite from its case files, fragments and specification
/// documents; an empty result means the suite's coverage is valid. Each problem becomes an
/// error result under its file, or under `root` when it has none.
pub fn validate_suite(cases: &[CaseInput], fragments: &[FragmentInput], documents: &[SpecDocument], root: &str) -> (r: Vec<crate::report::CaseResult>)
    ensures
        r@.len() == suite_diagnostics(cases@, fragments@, documents@).len(),
        forall|i: int| 0 <= i < r@.len() ==> crate::report::is_error(#[trigger] r@[i], "coverage"@,
            match suite_diagnostics(cases@, fragments@, documents@)[i].source {
                Some(s) => s,
                None => root@,
            }, suite_diagnostics(cases@, fragments@, documents@)[i].message),
{
    let mut diagnostics: Vec<Diagnostic> = Vec::new();
    let mut headers: Vec<CaseHeader> = Vec::new();
    let mut k: usize = 0;
    assert(cases@.take(0) =~= Seq::<CaseInput>::empty());
    assert(diagnostic_views(diagnostics@) =~= Seq::<DiagnosticView>::empty());
    assert(header_views(headers@) =~= Seq::<(Seq<char>, Seq<char>)>::empty());
    while k < cases.len()
        invariant
            k <= cases@.len(),
            diagnostic_views(diagnostics@) == case_inputs_check(cases@.take(k as int)).0,
            header_views(headers@) == case_inputs_check(cases@.take(k as int)).1,
        decreases cases@.len() - k,
    {
        assert(cases@.take(k + 1).drop_last() =~= cases@.take(k as int));
        let ghost hb = header_views(headers@);
        let ghost db = diagnostic_views(diagnostics@);
        match &cases[k] {
            CaseInput::Problem(p) => {
                diagnostics.push(clone_diagnostic(p));
                assert(diagnostic_views(diagnostics@) =~= db.push(p@));
            },
            CaseInput::File { suite, source, text } => {
                let ghost hs0 = headers@;
                check_case_text(suite.as_str(), source.as_str(), text.as_str(), &mut headers, &mut diagnostics);
                proof {
                    match case_text_check(suite@, source@, text@).1 {
                        Some(i) => {
                            assert(headers@ =~= hs0.push(headers@.last()));
                            assert(header_views(headers@) =~= hb.push((i, source@)));
                        },
                        None => {},
                    }
                }
            },
        }
        k = k + 1;
    }
    assert(cases@.take(k as int) =~= cases@);
    let ghost d1 = diagnostic_views(diagnostics@);
    let mut requirements: Vec<Requirement> = Vec::new();
    let mut k: usize = 0;
    assert(fragments@.take(0) =~= Seq::<FragmentInput>::empty());
    assert(d1 =~= d1 + fragment_inputs_check(fragments@.take(0)).0);
    assert(requirement_views(requirements@) =~= Seq::<RequirementView>::empty());
    while k < fragments.len()
        invariant
            k <= fragments@.len(),
            diagnostic_views(diagnostics@) == d1 + fragment_inputs_check(fragments@.take(k as int)).0,
            requirement_views(requirements@) == fragment_inputs_check(fragments@.take(k as int)).1,
        decreases fragments@.len() - k,
    {
        assert(fragments@.take(k + 1).drop_last() =~= fragments@.take(k as int));
        let ghost db = diagnostic_views(diagnostics@);
        match &fragments[k] {
            FragmentInput::Problem(p) => {
                diagnostics.push(clone_diagnostic(p));
                assert(diagnostic_views(diagnostics@) =~= db.push(p@));
            },
            FragmentInput::File { source, text } => {
                parse_fragment_text(source.as_str(), text.as_str(), &mut requirements, &mut diagnostics);
            },
        }
        k = k + 1;
        assert(diagnostic_views(diagnostics@) =~= d1 + fragment_inputs_check(fragments@.take(k as int)).0);
    }
    assert(fragments@.take(k as int) =~= fragments@);
    validate_case_ids(headers.as_slice(), &mut diagnostics);
    let mut messages: Vec<Vec<String>> = Vec::new();
    let ghost rv = requirement_views(requirements@);
    let mut k: usize = 0;
    while k < requirements.len()
        invariant
            k <= requirements@.len(),
            rv == requirement_views(requirements@),
            messages@.len() == k,
            forall|i: int| 0 <= i < k ==> message_views(messages@)[i] == reference_messages(rv[i], documents@),
        decreases requirements@.len() - k,
    {
        let m = reference_problems(&requirements[k], documents);
        assert(rv[k as int] == requirements@[k as int]@);
        let ghost mview = string_views(m@);
        assert(mview == reference_messages(rv[k as int], documents@));
        let ghost before = messages@;
        messages.push(m);
        assert(messages@[k as int]@ == m@);
        assert forall|i: int| 0 <= i < k + 1 implies message_views(messages@)[i] == reference_messages(rv[i], documents@) by {
            assert(message_views(messages@)[i] == string_views(messages@[i]@));
            if i < k {
                assert(messages@[i] == before[i]);
                assert(message_views(before)[i] == string_views(before[i]@));
            }
        }
        k = k + 1;
    }
    let ghost msgs = Seq::new(rv.len(), |i: int| reference_messages(rv[i], documents@));
    assert(message_views(messages@) =~= msgs);
    validate_requirements(requirements.as_slice(), messages.as_slice(), headers.as_slice(), &mut diagnostics);
    assert(diagnostic_views(diagnostics@) =~= suite_diagnostics(cases@, fragments@, documents@));
    let results = coverage_results(diagnostics.as_slice(), root);
    proof {
        assert forall|i: int| 0 <= i < diagnostics@.len() implies diagnostics@[i]@ == suite_diagnostics(cases@, fragments@, documents@)[i] by {
            assert(diagnostic_views(diagnostics@)[i] == diagnostics@[i]@);
        }
    }
    results
}

/// The document paths of the well-formed specification references of `rs`, in order.
pub open spec fn spec_paths_of(rs: Seq<RequirementView>) -> Seq<Seq<char>>
    decreases rs.len(),
{
    if rs.len() == 0 {
        Seq::empty()
    } else {
        spec_paths_of(rs.drop_last()) + match spec_reference_check(rs.last().id, rs.last().spec) {
            Ok((path, _)) => seq![path],
            Err(_) => Seq::empty(),
        }
    }
}

/// The document paths that the valid requirements of the fragments refer to, in order:
/// the documents that `validate_suite` needs.
pub fn spec_paths(fragments: &[FragmentInput]) -> (r: Vec<String>)
    ensures
        string_views(r@) == spec_paths_of(fragment_inputs_check(fragments@).1),
{
    let mut requirements: Vec<Requirement> = Vec::new();
    let mut scratch: Vec<Diagnostic> = Vec::new();
    let mut k: usize = 0;
    assert(fragments@.take(0) =~= Seq::<FragmentInput>::empty());
    assert(requirement_views(requirements@) =~= Seq::<RequirementView>::empty());
    while k < fragments.len()
        invariant
            k <= fragments@.len(),
            requirement_views(requirements@) == fragment_inputs_check(fragments@.take(k as int)).1,
        decreases fragments@.len() - k,
    {
        assert(fragments@.take(k + 1).drop_last() =~= fragments@.take(k as int));
        match &fragments[k] {
            FragmentInput::Problem(_) => {},
            FragmentInput::File { source, text } => {
                parse_fragment_text(source.as_str(), text.as_str(), &mut requirements, &mut scratch);
            },
        }
        k = k + 1;
    }
    assert(fragments@.take(k as int) =~= fragments@);
    let ghost rv = requirement_views(requirements@);
    let mut out: Vec<String> = Vec::new();
    let mut i: usize = 0;
    assert(rv.take(0) =~= Seq::<RequirementView>::empty());
    while i < requirements.len()
        invariant
            i <= requirements@.len(),
            rv == requirement_views(requirements@),
            string_views(out@) == spec_paths_of(rv.take(i as int)),
        decreases requirements@.len() - i,
    {
        assert(rv.take(i + 1).drop_last() =~= rv.take(i as int));
        assert(rv[i as int] == requirements@[i as int]@);
        let ghost before = string_views(out@);
        match check_spec_reference(requirements[i].id.as_str(), requirements[i].spec.as_str()) {
            Ok((path, _)) => {
                out.push(path);
                assert(string_views(out@) =~= before.push(out@.last()@));
            },
            Err(_) => {},
        }
        i = i + 1;
    }
    assert(rv.take(i as int) =~= rv);
    out
}

} // verus!
