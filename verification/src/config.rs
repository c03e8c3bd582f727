//! Persistent view preferences and per-folder column layouts.
//!
//! Both are kept as small text files. Unknown keys and lines that cannot be read are
//! ignored, so that a malformed file degrades to defaults.

use crate::assoc::{keys_differ, map_of, Key, KeyMap};
use crate::columns::{
    all_narrow, all_whole, decode_layout, encode_layout, fresh_layout,
    law_layout_comes_back_rounded, layout_fields, layout_from, layout_text,
    lemma_rounded_is_same, lemma_rule_text, rounded, rule_text, same_layout, ColumnLayout,
};
use crate::path::{comps, comps_code, join_text, parent_text, plain_name, Comp, WinPath};
use crate::sort::{Sort, SortKey, SortOrder};
use crate::text::{
    drop_cr, from_chars, is_space, lemma_first_of, lines, split_all, split_at_first,
    split_lines, split_once, str_eq, texts, to_chars, trim, trim_chars,
};
use crate::view_mode::ViewMode;
use vstd::prelude::*;

verus! {

/// The persisted view preferences.
#[derive(Debug, Clone, Copy, PartialEq, Eq, Structural)]
pub struct Settings {
    pub show_hidden: bool,
    pub sort: Sort,
    pub view_mode: ViewMode,
}

/// The preferences of a fresh install: hidden items off, sorted by name, details view.
pub open spec fn fresh_settings() -> Settings {
    Settings {
        show_hidden: false,
        sort: Sort {
            key: SortKey::Name,
            order: SortOrder::Ascending,
            folders_first: true,
        },
        view_mode: ViewMode::Details,
    }
}

impl Default for Settings {
    fn default() -> (r: Settings)
        ensures
            r == fresh_settings(),
    {
        Settings {
            show_hidden: false,
            sort: Sort::default(),
            view_mode: ViewMode::default(),
        }
    }
}

// ---------------------------------------------------------------- words

/// How a sort key is written.
pub open spec fn key_text(key: SortKey) -> Seq<char> {
    match key {
        SortKey::Name => "name"@,
        SortKey::Modified => "modified"@,
        SortKey::Type => "type"@,
        SortKey::Size => "size"@,
    }
}

/// The sort key that a word stands for.
pub open spec fn key_from(s: Seq<char>) -> Option<SortKey> {
    if s == "name"@ {
        Some(SortKey::Name)
    } else if s == "modified"@ {
        Some(SortKey::Modified)
    } else if s == "type"@ {
        Some(SortKey::Type)
    } else if s == "size"@ {
        Some(SortKey::Size)
    } else {
        None
    }
}

/// How a sort order is written.
pub open spec fn order_text(order: SortOrder) -> Seq<char> {
    match order {
        SortOrder::Ascending => "asc"@,
        SortOrder::Descending => "desc"@,
    }
}

/// The sort order that a word stands for.
pub open spec fn order_from(s: Seq<char>) -> Option<SortOrder> {
    if s == "asc"@ {
        Some(SortOrder::Ascending)
    } else if s == "desc"@ {
        Some(SortOrder::Descending)
    } else {
        None
    }
}

/// How a view mode is written.
pub open spec fn mode_text(mode: ViewMode) -> Seq<char> {
    match mode {
        ViewMode::Details => "details"@,
        ViewMode::Tiny => "tiny"@,
        ViewMode::Small => "small"@,
        ViewMode::Medium => "medium"@,
        ViewMode::Large => "large"@,
        ViewMode::ExtraLarge => "xlarge"@,
    }
}

/// The view mode that a word stands for.
pub open spec fn mode_from(s: Seq<char>) -> Option<ViewMode> {
    if s == "details"@ {
        Some(ViewMode::Details)
    } else if s == "tiny"@ {
        Some(ViewMode::Tiny)
    } else if s == "small"@ {
        Some(ViewMode::Small)
    } else if s == "medium"@ {
        Some(ViewMode::Medium)
    } else if s == "large"@ {
        Some(ViewMode::Large)
    } else if s == "xlarge"@ {
        Some(ViewMode::ExtraLarge)
    } else {
        None
    }
}

/// How a flag is written.
pub open spec fn flag_text(b: bool) -> Seq<char> {
    if b {
        "true"@
    } else {
        "false"@
    }
}

/// How a sort key is written.
pub fn sort_key_str(key: SortKey) -> (r: &'static str)
    ensures
        r@ == key_text(key),
{
    match key {
        SortKey::Name => "name",
        SortKey::Modified => "modified",
        SortKey::Type => "type",
        SortKey::Size => "size",
    }
}

/// The sort key that a word stands for.
pub fn sort_key_from(value: &str) -> (r: Option<SortKey>)
    ensures
        r == key_from(value@),
{
    if str_eq(value, "name") {
        Some(SortKey::Name)
    } else if str_eq(value, "modified") {
        Some(SortKey::Modified)
    } else if str_eq(value, "type") {
        Some(SortKey::Type)
    } else if str_eq(value, "size") {
        Some(SortKey::Size)
    } else {
        None
    }
}

/// How a sort order is written.
pub fn sort_order_str(order: SortOrder) -> (r: &'static str)
    ensures
        r@ == order_text(order),
{
    match order {
        SortOrder::Ascending => "asc",
        SortOrder::Descending => "desc",
    }
}

/// The sort order that a word stands for.
pub fn sort_order_from(value: &str) -> (r: Option<SortOrder>)
    ensures
        r == order_from(value@),
{
    if str_eq(value, "asc") {
        Some(SortOrder::Ascending)
    } else if str_eq(value, "desc") {
        Some(SortOrder::Descending)
    } else {
        None
    }
}

/// How a view mode is written.
pub fn view_mode_str(mode: ViewMode) -> (r: &'static str)
    ensures
        r@ == mode_text(mode),
{
    match mode {
        ViewMode::Details => "details",
        ViewMode::Tiny => "tiny",
        ViewMode::Small => "small",
        ViewMode::Medium => "medium",
        ViewMode::Large => "large",
        ViewMode::ExtraLarge => "xlarge",
    }
}

/// The view mode that a word stands for.
pub fn view_mode_from(value: &str) -> (r: Option<ViewMode>)
    ensures
        r == mode_from(value@),
{
    if str_eq(value, "details") {
        Some(ViewMode::Details)
    } else if str_eq(value, "tiny") {
        Some(ViewMode::Tiny)
    } else if str_eq(value, "small") {
        Some(ViewMode::Small)
    } else if str_eq(value, "medium") {
        Some(ViewMode::Medium)
    } else if str_eq(value, "large") {
        Some(ViewMode::Large)
    } else if str_eq(value, "xlarge") {
        Some(ViewMode::ExtraLarge)
    } else {
        None
    }
}

// ---------------------------------------------------------------- settings

/// The settings file.
pub open spec fn settings_text(s: Settings) -> Seq<char> {
    "show_hidden="@ + flag_text(s.show_hidden) + seq!['\n'] + ("sort_key="@ + key_text(s.sort.key)
        + seq!['\n'] + ("sort_order="@ + order_text(s.sort.order) + seq!['\n'] + ("view_mode="@
        + mode_text(s.view_mode) + seq!['\n'])))
}

/// What a key and its value do to the settings.
pub open spec fn with_value(s: Settings, key: Seq<char>, value: Seq<char>) -> Settings {
    if key == "show_hidden"@ {
        Settings { show_hidden: value == "true"@, ..s }
    } else if key == "sort_key"@ {
        match key_from(value) {
            Some(k) => Settings { sort: Sort { key: k, ..s.sort }, ..s },
            None => s,
        }
    } else if key == "sort_order"@ {
        match order_from(value) {
            Some(o) => Settings { sort: Sort { order: o, ..s.sort }, ..s },
            None => s,
        }
    } else if key == "view_mode"@ {
        match mode_from(value) {
            Some(m) => Settings { view_mode: m, ..s },
            None => s,
        }
    } else {
        s
    }
}

/// What a line does to the settings.
pub open spec fn with_line(s: Settings, line: Seq<char>) -> Settings {
    match split_once(line, '=') {
        Some((key, value)) => with_value(s, trim(key), trim(value)),
        None => s,
    }
}

/// What lines, one after the other, do to the settings.
pub open spec fn with_lines(s: Settings, l: Seq<Seq<char>>) -> Settings
    decreases l.len(),
{
    if l.len() == 0 {
        s
    } else {
        with_lines(with_line(s, l[0]), l.drop_first())
    }
}

/// The settings that a file holds.
pub open spec fn settings_from(text: Seq<char>) -> Settings {
    with_lines(fresh_settings(), lines(text))
}

/// Write the settings file.
pub fn serialize(settings: &Settings) -> (r: String)
    ensures
        r@ == settings_text(*settings),
{
    let mut s = "show_hidden=".to_string();
    if settings.show_hidden {
        s.append("true");
    } else {
        s.append("false");
    }
    s.push('\n');
    s.append("sort_key=");
    s.append(sort_key_str(settings.sort.key));
    s.push('\n');
    s.append("sort_order=");
    s.append(sort_order_str(settings.sort.order));
    s.push('\n');
    s.append("view_mode=");
    s.append(view_mode_str(settings.view_mode));
    s.push('\n');
    assert(s@ =~= settings_text(*settings));
    s
}

fn apply_line(settings: Settings, line: &Vec<char>) -> (r: Settings)
    ensures
        r == with_line(settings, line@),
{
    match split_at_first(line, '=') {
        None => settings,
        Some((key, value)) => {
            let key = from_chars(&trim_chars(&key));
            let value = from_chars(&trim_chars(&value));
            let mut s = settings;
            if str_eq(&key, "show_hidden") {
                s.show_hidden = str_eq(&value, "true");
            } else if str_eq(&key, "sort_key") {
                if let Some(k) = sort_key_from(&value) {
                    s.sort.key = k;
                }
            } else if str_eq(&key, "sort_order") {
                if let Some(o) = sort_order_from(&value) {
                    s.sort.order = o;
                }
            } else if str_eq(&key, "view_mode") {
                if let Some(m) = view_mode_from(&value) {
                    s.view_mode = m;
                }
            }
            s
        },
    }
}

/// Read the settings file. What is not understood is ignored.
pub fn parse(text: &str) -> (r: Settings)
    ensures
        r == settings_from(text@),
{
    let all = split_lines(&to_chars(text));
    let mut settings = Settings::default();
    let ghost ls = lines(text@);
    assert(ls.skip(0) =~= ls);
    for i in 0..all.len()
        invariant
            texts(all@) == ls,
            with_lines(settings, ls.skip(i as int)) == with_lines(fresh_settings(), ls),
    {
        proof {
            assert(ls.skip(i as int)[0] == all@[i as int]@);
            assert(ls.skip(i as int).drop_first() =~= ls.skip(i + 1));
        }
        settings = apply_line(settings, &all[i]);
    }
    assert(ls.skip(all@.len() as int) =~= seq![]);
    settings
}

/// A line ends at its line feed.
pub proof fn lemma_lines_head(a: Seq<char>, rest: Seq<char>)
    requires
        forall|i: int| 0 <= i < a.len() ==> #[trigger] a[i] != '\n',
    ensures
        lines(a + seq!['\n'] + rest) == seq![drop_cr(a)] + lines(rest),
{
    let s = a + seq!['\n'] + rest;
    assert forall|j: int| 0 <= j < a.len() implies s[j] != '\n' by {
        assert(s[j] == a[j]);
    }
    lemma_first_of(s, '\n', a.len() as int);
    assert(s.take(a.len() as int) =~= a);
    assert(s.skip(a.len() as int + 1) =~= rest);
}

/// A word: text without white space, line ends and equals signs.
spec fn is_word(s: Seq<char>) -> bool {
    &&& s.len() > 0
    &&& forall|i: int|
        0 <= i < s.len() ==> !is_space(#[trigger] s[i]) && s[i] != '=' && s[i] != '\n' && s[i]
            != '\r'
}

/// What a line made of a key and a value does.
proof fn lemma_line(s: Settings, key: Seq<char>, value: Seq<char>, rest: Seq<char>)
    requires
        is_word(key),
        is_word(value),
    ensures
        with_lines(s, lines(key + seq!['='] + value + seq!['\n'] + rest)) == with_lines(
            with_value(s, key, value),
            lines(rest),
        ),
{
    let line = key + seq!['='] + value;
    let text = key + seq!['='] + value + seq!['\n'] + rest;
    assert(text =~= line + seq!['\n'] + rest);
    assert forall|i: int| 0 <= i < line.len() implies #[trigger] line[i] != '\n' by {
        if i < key.len() {
            assert(line[i] == key[i]);
        } else if i > key.len() {
            assert(line[i] == value[i - key.len() - 1]);
        }
    }
    lemma_lines_head(line, rest);
    assert(line.last() == value.last());
    assert(value[value.len() - 1] != '\r');
    assert(drop_cr(line) == line);
    assert forall|j: int| 0 <= j < key.len() implies line[j] != '=' by {
        assert(line[j] == key[j]);
    }
    lemma_first_of(line, '=', key.len() as int);
    assert(line.take(key.len() as int) =~= key);
    assert(line.skip(key.len() as int + 1) =~= value);
    assert(!is_space(key[0]) && !is_space(key[key.len() - 1]));
    assert(!is_space(value[0]) && !is_space(value[value.len() - 1]));
    crate::text::lemma_trim_fixed(key);
    crate::text::lemma_trim_fixed(value);
    let all = seq![line] + lines(rest);
    assert(all.drop_first() =~= lines(rest));
}

/// Settings come back from the settings file as they were written. Whether folders come
/// first is not written; it always reads as on.
pub proof fn law_settings_round_trip(s: Settings)
    ensures
        settings_from(settings_text(s)) == (Settings {
            sort: Sort { folders_first: true, ..s.sort },
            ..s
        }),
{
    reveal_strlit("show_hidden=");
    reveal_strlit("sort_key=");
    reveal_strlit("sort_order=");
    reveal_strlit("view_mode=");
    reveal_strlit("show_hidden");
    reveal_strlit("sort_key");
    reveal_strlit("sort_order");
    reveal_strlit("view_mode");
    assert("show_hidden="@ =~= "show_hidden"@ + seq!['=']);
    assert("sort_key="@ =~= "sort_key"@ + seq!['=']);
    assert("sort_order="@ =~= "sort_order"@ + seq!['=']);
    assert("view_mode="@ =~= "view_mode"@ + seq!['=']);
    lemma_words(s);
    let d = "view_mode="@ + mode_text(s.view_mode) + seq!['\n'];
    let c = "sort_order="@ + order_text(s.sort.order) + seq!['\n'] + d;
    let b = "sort_key="@ + key_text(s.sort.key) + seq!['\n'] + c;
    let s0 = fresh_settings();
    let s1 = with_value(s0, "show_hidden"@, flag_text(s.show_hidden));
    let s2 = with_value(s1, "sort_key"@, key_text(s.sort.key));
    let s3 = with_value(s2, "sort_order"@, order_text(s.sort.order));
    let s4 = with_value(s3, "view_mode"@, mode_text(s.view_mode));
    lemma_line(s0, "show_hidden"@, flag_text(s.show_hidden), b);
    lemma_line(s1, "sort_key"@, key_text(s.sort.key), c);
    lemma_line(s2, "sort_order"@, order_text(s.sort.order), d);
    lemma_line(s3, "view_mode"@, mode_text(s.view_mode), seq![]);
    assert(d =~= "view_mode"@ + seq!['='] + mode_text(s.view_mode) + seq!['\n'] + seq![]);
    assert(lines(Seq::<char>::empty()) =~= seq![]);
    assert("show_hidden"@.len() == 11 && "sort_key"@.len() == 8 && "sort_order"@.len() == 10
        && "view_mode"@.len() == 9);
}

/// Every written word is a word, and reads back as what it was written for.
proof fn lemma_words(s: Settings)
    ensures
        is_word("show_hidden"@),
        is_word("sort_key"@),
        is_word("sort_order"@),
        is_word("view_mode"@),
        is_word(flag_text(s.show_hidden)),
        is_word(key_text(s.sort.key)),
        is_word(order_text(s.sort.order)),
        is_word(mode_text(s.view_mode)),
        (flag_text(s.show_hidden) == "true"@) == s.show_hidden,
        key_from(key_text(s.sort.key)) == Some(s.sort.key),
        order_from(order_text(s.sort.order)) == Some(s.sort.order),
        mode_from(mode_text(s.view_mode)) == Some(s.view_mode),
{
    reveal_strlit("show_hidden");
    reveal_strlit("sort_key");
    reveal_strlit("sort_order");
    reveal_strlit("view_mode");
    reveal_strlit("true");
    reveal_strlit("false");
    reveal_strlit("name");
    reveal_strlit("modified");
    reveal_strlit("type");
    reveal_strlit("size");
    reveal_strlit("asc");
    reveal_strlit("desc");
    reveal_strlit("details");
    reveal_strlit("tiny");
    reveal_strlit("small");
    reveal_strlit("medium");
    reveal_strlit("large");
    reveal_strlit("xlarge");
    assert("true"@.len() == 4 && "false"@.len() == 5);
    assert("name"@[0] == 'n' && "type"@[0] == 't' && "size"@[0] == 's' && "modified"@.len() == 8);
    assert("asc"@.len() == 3 && "desc"@.len() == 4);
    assert("tiny"@.len() == 4 && "details"@.len() == 7);
    assert("small"@[0] == 's' && "large"@[0] == 'l');
    assert("medium"@[0] == 'm' && "xlarge"@[0] == 'x');
}

// ---------------------------------------------------------------- columns

impl Key for WinPath {
    type Id = Seq<Comp>;

    open spec fn id(&self) -> Seq<Comp> {
        comps(self@)
    }

    open spec fn code_of(id: Seq<Comp>) -> int {
        comps_code(id)
    }

    fn code(&self) -> (r: u64) {
        WinPath::code(self)
    }

    fn same_key(&self, other: &WinPath) -> (r: bool) {
        self.same(other)
    }
}

/// The kept column layouts, by folder.
pub type ColumnStore = KeyMap<WinPath, ColumnLayout>;

/// The line that keeps a folder's layout.
pub open spec fn column_line(path: Seq<char>, layout: ColumnLayout) -> Seq<char> {
    layout_text(layout) + seq!['|'] + path
}

/// The file that keeps column layouts; a default layout is not written.
pub open spec fn columns_text(entries: Seq<(WinPath, ColumnLayout)>) -> Seq<char>
    decreases entries.len(),
{
    if entries.len() == 0 {
        seq![]
    } else {
        let before = columns_text(entries.drop_last());
        let (path, layout) = entries.last();
        if layout == fresh_layout() {
            before
        } else {
            before + column_line(path@, layout) + seq!['\n']
        }
    }
}

/// What a line of the columns file says: the folder and its layout, given the width that
/// each field of the layout reads as.
pub open spec fn column_entry(line: Seq<char>, widths: Seq<Option<u32>>) -> Option<
    (Seq<char>, ColumnLayout),
> {
    match split_once(line, '|') {
        Some((encoded, path)) => if trim(path).len() == 0 {
            None
        } else {
            match layout_from(trim(encoded), widths) {
                Some(l) => Some((trim(path), l)),
                None => None,
            }
        },
        None => None,
    }
}

/// The layouts that the first `n` lines of the columns file hold, by folder; of two lines
/// for a folder the later one counts.
pub open spec fn columns_from(
    l: Seq<Seq<char>>,
    widths: Seq<Vec<Option<u32>>>,
    n: int,
) -> Map<Seq<Comp>, ColumnLayout>
    decreases n,
{
    if n <= 0 {
        Map::empty()
    } else {
        let before = columns_from(l, widths, n - 1);
        match column_entry(l[n - 1], widths[n - 1]@) {
            Some((path, layout)) => before.insert(comps(path), layout),
            None => before,
        }
    }
}

/// The fields of the layout on a line of the columns file.
pub open spec fn line_fields(line: Seq<char>) -> Seq<Seq<char>> {
    match split_once(line, '|') {
        Some((encoded, _)) => split_all(trim(encoded), ';'),
        None => seq![],
    }
}

/// Write the columns file: one folder per line, the layout before the path.
pub fn serialize_columns(columns: &ColumnStore) -> (r: String)
    ensures
        r@ == columns_text(columns.entries@),
{
    let mut out = String::new();
    assert(columns.entries@.take(0) =~= seq![]);
    for i in 0..columns.entries.len()
        invariant
            out@ == columns_text(columns.entries@.take(i as int)),
    {
        let ghost prev = out@;
        assert(columns.entries@.take(i + 1).drop_last() =~= columns.entries@.take(i as int));
        let entry = &columns.entries[i];
        if !entry.1.is_default() {
            out.append(&encode_layout(&entry.1));
            out.push('|');
            out.append(&entry.0.text);
            out.push('\n');
            assert(out@ =~= prev + column_line(entry.0@, entry.1) + seq!['\n']);
        }
    }
    assert(columns.entries@.take(columns.entries@.len() as int) =~= columns.entries@);
    out
}

/// The layout fields on each line of a columns file, whose widths [`parse_columns`] needs.
pub fn column_fields(text: &str) -> (r: Vec<Vec<String>>)
    ensures
        r@.len() == lines(text@).len(),
        forall|i: int|
            0 <= i < r@.len() ==> crate::text::strings((#[trigger] r@[i])@) == line_fields(
                lines(text@)[i],
            ),
{
    let all = split_lines(&to_chars(text));
    let mut out: Vec<Vec<String>> = Vec::new();
    for i in 0..all.len()
        invariant
            texts(all@) == lines(text@),
            out@.len() == i,
            forall|k: int|
                0 <= k < i ==> crate::text::strings((#[trigger] out@[k])@) == line_fields(
                    lines(text@)[k],
                ),
    {
        assert(lines(text@)[i as int] == all@[i as int]@);
        match split_at_first(&all[i], '|') {
            Some((encoded, _)) => {
                out.push(layout_fields(&from_chars(&trim_chars(&encoded))));
            },
            None => {
                let none: Vec<String> = Vec::new();
                assert(crate::text::strings(none@) =~= seq![]);
                out.push(none);
            },
        }
    }
    out
}

/// Read a columns file, given for each line the width that each of its layout fields
/// reads as. Lines that cannot be read are skipped.
pub fn parse_columns(text: &str, widths: &Vec<Vec<Option<u32>>>) -> (r: ColumnStore)
    requires
        widths@.len() == lines(text@).len(),
        forall|i: int|
            0 <= i < widths@.len() ==> (#[trigger] widths@[i])@.len() == line_fields(
                lines(text@)[i],
            ).len(),
    ensures
        r.wf(),
        r@ == columns_from(lines(text@), widths@, lines(text@).len() as int),
{
    let all = split_lines(&to_chars(text));
    let mut store: ColumnStore = KeyMap::new();
    let ghost ls = lines(text@);
    for i in 0..all.len()
        invariant
            texts(all@) == ls,
            widths@.len() == ls.len(),
            forall|k: int|
                0 <= k < widths@.len() ==> (#[trigger] widths@[k])@.len() == line_fields(
                    ls[k],
                ).len(),
            store.wf(),
            store@ == columns_from(ls, widths@, i as int),
    {
        assert(ls[i as int] == all@[i as int]@);
        assert(widths@[i as int]@.len() == line_fields(ls[i as int]).len());
        if let Some((encoded, path)) = split_at_first(&all[i], '|') {
            let path = trim_chars(&path);
            if path.len() > 0 {
                let encoded = from_chars(&trim_chars(&encoded));
                if let Some(layout) = decode_layout(&encoded, &widths[i]) {
                    let _ = store.insert(WinPath::from_chars(&path), layout);
                }
            }
        }
    }
    store
}

/// The entries that are written: those whose layout is not the default.
pub open spec fn kept(entries: Seq<(WinPath, ColumnLayout)>) -> Seq<(WinPath, ColumnLayout)>
    decreases entries.len(),
{
    if entries.len() == 0 {
        seq![]
    } else if entries.last().1 == fresh_layout() {
        kept(entries.drop_last())
    } else {
        kept(entries.drop_last()).push(entries.last())
    }
}

/// Whether a path can be kept on a line: it is not blank, has no white space at its ends
/// and no line end inside.
pub open spec fn storable(path: Seq<char>) -> bool {
    &&& path.len() > 0
    &&& !is_space(path[0])
    &&& !is_space(path.last())
    &&& forall|i: int| 0 <= i < path.len() ==> #[trigger] path[i] != '\n'
}

/// The layout that is kept for a folder, if one is.
pub open spec fn kept_layout(entries: Seq<(WinPath, ColumnLayout)>, id: Seq<Comp>) -> Option<
    ColumnLayout,
> {
    let m = map_of(entries);
    if m.contains_key(id) && m[id] != fresh_layout() {
        Some(m[id])
    } else {
        None
    }
}

/// Column layouts of whole widths come back from the columns file equal to what was kept,
/// whatever characters but line ends the paths hold. Default layouts carry nothing and are
/// not written.
pub proof fn law_columns_round_trip(
    entries: Seq<(WinPath, ColumnLayout)>,
    widths: Seq<Vec<Option<u32>>>,
    id: Seq<Comp>,
)
    requires
        keys_differ(entries),
        forall|i: int| 0 <= i < entries.len() ==> storable((#[trigger] entries[i]).0@),
        forall|i: int| 0 <= i < entries.len() ==> all_whole((#[trigger] entries[i]).1),
        widths.len() == kept(entries).len(),
        forall|i: int| 0 <= i < widths.len() ==> (#[trigger] widths[i])@.len() == 4,
    ensures
        ({
            let l = lines(columns_text(entries));
            let m = columns_from(l, widths, l.len() as int);
            &&& l.len() == widths.len()
            &&& m.contains_key(id) <==> kept_layout(entries, id) is Some
            &&& m.contains_key(id) ==> same_layout(m[id], kept_layout(entries, id)->0)
        }),
{
    assert forall|i: int| 0 <= i < entries.len() implies all_narrow((#[trigger] entries[i]).1) by {
        lemma_rounded_is_same(entries[i].1);
    }
    law_columns_come_back_rounded(entries, widths, id);
    if let Some(layout) = kept_layout(entries, id) {
        let j = crate::assoc::key_index(entries, id);
        assert(crate::assoc::keyed(entries, id));
        assert(0 <= j < entries.len() && entries[j].0.id() == id);
        crate::assoc::lemma_map_at(entries, j);
        assert(all_whole(entries[j].1));
        lemma_rounded_is_same(layout);
    }
}

/// Any column layouts come back from the columns file with their pinned widths rounded to
/// whole pixels, as long as these are below the limit.
pub proof fn law_columns_come_back_rounded(
    entries: Seq<(WinPath, ColumnLayout)>,
    widths: Seq<Vec<Option<u32>>>,
    id: Seq<Comp>,
)
    requires
        keys_differ(entries),
        forall|i: int| 0 <= i < entries.len() ==> storable((#[trigger] entries[i]).0@),
        forall|i: int| 0 <= i < entries.len() ==> all_narrow((#[trigger] entries[i]).1),
        widths.len() == kept(entries).len(),
        forall|i: int| 0 <= i < widths.len() ==> (#[trigger] widths[i])@.len() == 4,
    ensures
        ({
            let l = lines(columns_text(entries));
            let m = columns_from(l, widths, l.len() as int);
            &&& l.len() == widths.len()
            &&& match kept_layout(entries, id) {
                Some(layout) => m.contains_key(id) && m[id] == rounded(layout),
                None => !m.contains_key(id),
            }
        }),
{
    lemma_columns_lines(entries);
    let k = kept(entries);
    let l = lines(columns_text(entries));
    assert(l.len() == k.len());
    lemma_kept(entries);
    lemma_columns_from(entries, widths, k.len() as int, id);
}

/// The lines of the columns file are those of the kept entries.
proof fn lemma_columns_lines(entries: Seq<(WinPath, ColumnLayout)>)
    requires
        forall|i: int| 0 <= i < entries.len() ==> storable((#[trigger] entries[i]).0@),
    ensures
        lines(columns_text(entries)) == kept(entries).map_values(
            |e: (WinPath, ColumnLayout)| column_line(e.0@, e.1),
        ),
        columns_text(entries).len() > 0 ==> columns_text(entries).last() == '\n',
    decreases entries.len(),
{
    let f = |e: (WinPath, ColumnLayout)| column_line(e.0@, e.1);
    if entries.len() == 0 {
        assert(lines(columns_text(entries)) =~= kept(entries).map_values(f));
    } else {
        let t = entries.drop_last();
        let (path, layout) = entries.last();
        assert forall|i: int| 0 <= i < t.len() implies storable((#[trigger] t[i]).0@) by {
            assert(t[i] == entries[i]);
        }
        lemma_columns_lines(t);
        if layout != fresh_layout() {
            assert(storable(entries[entries.len() - 1].0@));
            let line = column_line(path@, layout);
            lemma_column_line(path@, layout);
            let tail = line + seq!['\n'];
            lemma_lines_head(line, seq![]);
            assert(line + seq!['\n'] + Seq::<char>::empty() =~= tail);
            assert(lines(Seq::<char>::empty()) =~= seq![]);
            assert(lines(tail) =~= seq![line]);
            lemma_lines_append(columns_text(t), tail);
            assert(columns_text(entries) =~= columns_text(t) + tail);
            assert(kept(entries).map_values(f) =~= kept(t).map_values(f) + seq![line]);
        }
    }
}

/// A line of the columns file has no line end in it, and does not end in a carriage
/// return.
proof fn lemma_column_line(path: Seq<char>, layout: ColumnLayout)
    requires
        storable(path),
    ensures
        forall|i: int|
            0 <= i < column_line(path, layout).len() ==> #[trigger] column_line(path, layout)[i]
                != '\n',
        drop_cr(column_line(path, layout)) == column_line(path, layout),
        split_once(column_line(path, layout), '|') == Some((layout_text(layout), path)),
        trim(layout_text(layout)) == layout_text(layout),
        trim(path) == path,
{
    let line = column_line(path, layout);
    let l = layout_text(layout);
    lemma_layout_chars(layout);
    assert forall|i: int| 0 <= i < line.len() implies #[trigger] line[i] != '\n' by {
        if i < l.len() {
            assert(line[i] == l[i]);
        } else if i > l.len() {
            assert(line[i] == path[i - l.len() - 1]);
        }
    }
    assert(line.last() == path.last());
    assert forall|j: int| 0 <= j < l.len() implies line[j] != '|' by {
        assert(line[j] == l[j]);
    }
    lemma_first_of(line, '|', l.len() as int);
    assert(line.take(l.len() as int) =~= l);
    assert(line.skip(l.len() as int + 1) =~= path);
    crate::text::lemma_trim_fixed(l);
    crate::text::lemma_trim_fixed(path);
}

proof fn lemma_layout_chars(layout: ColumnLayout)
    ensures
        layout_text(layout).len() > 0,
        !is_space(layout_text(layout)[0]),
        !is_space(layout_text(layout).last()),
        forall|i: int|
            0 <= i < layout_text(layout).len() ==> {
                let c = #[trigger] layout_text(layout)[i];
                c != '|' && c != '\n'
            },
{
    let a = rule_text(layout.name);
    let b = rule_text(layout.modified);
    let c = rule_text(layout.type_);
    let d = rule_text(layout.size);
    lemma_rule_text(layout.name);
    lemma_rule_text(layout.modified);
    lemma_rule_text(layout.type_);
    lemma_rule_text(layout.size);
    let s = layout_text(layout);
    assert(s[0] == a[0]);
    assert(s.last() == d[d.len() - 1]);
    assert forall|i: int| 0 <= i < s.len() implies {
        let x = #[trigger] s[i];
        x != '|' && x != '\n'
    } by {
        let na = a.len() as int;
        let nb = na + 1 + b.len();
        let nc = nb + 1 + c.len();
        if i < na {
            assert(s[i] == a[i]);
        } else if i == na {
        } else if i < nb {
            assert(s[i] == b[i - na - 1]);
        } else if i == nb {
        } else if i < nc {
            assert(s[i] == c[i - nb - 1]);
        } else if i > nc {
            assert(s[i] == d[i - nc - 1]);
        }
    }
}

/// Lines of text that ends in a line end, followed by more.
proof fn lemma_lines_append(a: Seq<char>, b: Seq<char>)
    requires
        a.len() > 0 ==> a.last() == '\n',
    ensures
        lines(a + b) == lines(a) + lines(b),
    decreases a.len(),
{
    if a.len() == 0 {
        assert(a + b =~= b);
        assert(lines(a) + lines(b) =~= lines(b));
    } else {
        crate::text::lemma_first_of_props(a, '\n');
        let i = crate::text::first_of(a, '\n');
        assert(i < a.len()) by {
            if i == a.len() {
                assert(a[a.len() - 1] != '\n');
            }
        }
        let s = a + b;
        assert forall|j: int| 0 <= j < i implies s[j] != '\n' by {
            assert(s[j] == a[j]);
        }
        lemma_first_of(s, '\n', i);
        let rest = a.skip(i + 1);
        if rest.len() > 0 {
            assert(rest.last() == a.last());
        }
        lemma_lines_append(rest, b);
        assert(s.skip(i + 1) =~= rest + b);
        assert(s.take(i) =~= a.take(i));
        assert(lines(s) =~= lines(a) + lines(b));
    }
}

/// The kept entries are among the entries, and have different keys.
proof fn lemma_kept(entries: Seq<(WinPath, ColumnLayout)>)
    ensures
        forall|i: int|
            0 <= i < kept(entries).len() ==> entries.contains(#[trigger] kept(entries)[i]),
        forall|i: int|
            0 <= i < kept(entries).len() ==> (#[trigger] kept(entries)[i]).1 != fresh_layout(),
        forall|i: int|
            0 <= i < entries.len() && (#[trigger] entries[i]).1 != fresh_layout() ==> kept(
                entries,
            ).contains(entries[i]),
    decreases entries.len(),
{
    if entries.len() > 0 {
        let t = entries.drop_last();
        lemma_kept(t);
        let k = kept(entries);
        let kt = kept(t);
        assert forall|i: int| 0 <= i < k.len() implies entries.contains(#[trigger] k[i]) by {
            if i < kt.len() {
                assert(k[i] == kt[i]);
                assert(t.contains(kt[i]));
                let j = choose|j: int| 0 <= j < t.len() && t[j] == kt[i];
                assert(entries[j] == k[i]);
            } else {
                assert(entries[entries.len() - 1] == k[i]);
            }
        }
        assert forall|i: int|
            0 <= i < entries.len() && (#[trigger] entries[i]).1 != fresh_layout() implies k.contains(
        entries[i]) by {
            if i < t.len() {
                assert(t[i] == entries[i]);
                assert(kt.contains(t[i]));
                let j = choose|j: int| 0 <= j < kt.len() && kt[j] == t[i];
                assert(k[j] == entries[i]);
            } else {
                assert(k[kt.len() as int] == entries[i]);
            }
        }
    }
}

/// What the first lines of the columns file hold for a folder.
proof fn lemma_columns_from(
    entries: Seq<(WinPath, ColumnLayout)>,
    widths: Seq<Vec<Option<u32>>>,
    n: int,
    id: Seq<Comp>,
)
    requires
        keys_differ(entries),
        forall|i: int| 0 <= i < entries.len() ==> storable((#[trigger] entries[i]).0@),
        forall|i: int| 0 <= i < entries.len() ==> all_narrow((#[trigger] entries[i]).1),
        widths.len() == kept(entries).len(),
        forall|i: int| 0 <= i < widths.len() ==> (#[trigger] widths[i])@.len() == 4,
        n == kept(entries).len(),
    ensures
        ({
            let m = columns_from(lines(columns_text(entries)), widths, n);
            match kept_layout(entries, id) {
                Some(layout) => m.contains_key(id) && m[id] == rounded(layout),
                None => !m.contains_key(id),
            }
        }),
{
    let k = kept(entries);
    let l = lines(columns_text(entries));
    lemma_columns_lines(entries);
    lemma_kept(entries);
    lemma_partial(entries, widths, n, id);
    let m = columns_from(l, widths, n);
    if m.contains_key(id) {
        let i = choose|i: int|
            0 <= i < n && comps((#[trigger] k[i]).0@) == id && m[id] == rounded(k[i].1);
        assert(entries.contains(k[i]));
        let j = choose|j: int| 0 <= j < entries.len() && entries[j] == k[i];
        crate::assoc::lemma_map_at(entries, j);
    } else if map_of(entries).contains_key(id) && map_of(entries)[id] != fresh_layout() {
        let j = crate::assoc::key_index(entries, id);
        assert(crate::assoc::keyed(entries, id));
        assert(0 <= j < entries.len() && entries[j].0.id() == id);
        crate::assoc::lemma_map_at(entries, j);
        assert(k.contains(entries[j]));
        let i = choose|i: int| 0 <= i < k.len() && k[i] == entries[j];
        assert(comps(k[i].0@) == id);
    }
}

proof fn lemma_partial(
    entries: Seq<(WinPath, ColumnLayout)>,
    widths: Seq<Vec<Option<u32>>>,
    n: int,
    id: Seq<Comp>,
)
    requires
        keys_differ(entries),
        forall|i: int| 0 <= i < entries.len() ==> storable((#[trigger] entries[i]).0@),
        forall|i: int| 0 <= i < entries.len() ==> all_narrow((#[trigger] entries[i]).1),
        widths.len() == kept(entries).len(),
        forall|i: int| 0 <= i < widths.len() ==> (#[trigger] widths[i])@.len() == 4,
        0 <= n <= kept(entries).len(),
    ensures
        ({
            let k = kept(entries);
            let m = columns_from(lines(columns_text(entries)), widths, n);
            &&& m.contains_key(id) ==> exists|i: int|
                0 <= i < n && comps((#[trigger] k[i]).0@) == id && m[id] == rounded(k[i].1)
            &&& forall|i: int|
                0 <= i < n && comps((#[trigger] k[i]).0@) == id ==> m.contains_key(id)
        }),
    decreases n,
{
    if n > 0 {
        lemma_partial(entries, widths, n - 1, id);
        lemma_columns_lines(entries);
        lemma_kept(entries);
        let k = kept(entries);
        let l = lines(columns_text(entries));
        let e = k[n - 1];
        assert(l[n - 1] == column_line(e.0@, e.1));
        assert(entries.contains(e));
        let j = choose|j: int| 0 <= j < entries.len() && entries[j] == e;
        assert(storable(entries[j].0@));
        lemma_column_line(e.0@, e.1);
        assert(all_narrow(entries[j].1));
        law_layout_comes_back_rounded(e.1, widths[n - 1]@);
        assert(column_entry(l[n - 1], widths[n - 1]@) == Some((e.0@, rounded(e.1))));
        let m = columns_from(l, widths, n);
        let before = columns_from(l, widths, n - 1);
        assert(m == before.insert(comps(e.0@), rounded(e.1)));
        if m.contains_key(id) {
            if comps(e.0@) == id {
                assert(comps(k[n - 1].0@) == id && m[id] == rounded(k[n - 1].1));
            } else {
                let i = choose|i: int|
                    0 <= i < n - 1 && comps((#[trigger] k[i]).0@) == id && before[id] == rounded(
                        k[i].1,
                    );
                assert(comps(k[i].0@) == id && m[id] == rounded(k[i].1));
            }
        }
    }
}

// ---------------------------------------------------------------- places

/// The names of the two configuration files and of their folder.
pub open spec fn settings_file() -> Seq<char> {
    "librarian.config"@
}

/// The name of the columns file.
pub open spec fn columns_file() -> Seq<char> {
    "librarian-columns.config"@
}

/// The name of the settings file.
pub fn settings_file_name() -> (r: &'static str)
    ensures
        r@ == settings_file(),
        plain_name(r@),
{
    proof {
        reveal_strlit("librarian.config");
        assert(seq!['.'].len() == 1 && seq!['.', '.'].len() == 2);
    }
    "librarian.config"
}

/// The name of the columns file.
pub fn columns_file_name() -> (r: &'static str)
    ensures
        r@ == columns_file(),
        plain_name(r@),
{
    proof {
        reveal_strlit("librarian-columns.config");
        assert(seq!['.'].len() == 1 && seq!['.', '.'].len() == 2);
    }
    "librarian-columns.config"
}

/// Where a configuration file lies beside the executable.
pub fn portable_path(exe: &Option<WinPath>, file_name: &str) -> (r: Option<WinPath>)
    requires
        plain_name(file_name@),
    ensures
        match r {
            Some(p) => exe is Some && parent_text(exe->0@) is Some && p@ == join_text(
                parent_text(exe->0@)->0,
                file_name@,
            ),
            None => exe is None || parent_text(exe->0@) is None,
        },
{
    match exe {
        Some(e) => match e.parent() {
            Some(dir) => Some(dir.join(file_name)),
            None => None,
        },
        None => None,
    }
}

/// Where a configuration file lies in the user's application data.
pub fn roaming_path(app_data: &Option<WinPath>, file_name: &str) -> (r: Option<WinPath>)
    requires
        plain_name(file_name@),
    ensures
        match r {
            Some(p) => app_data is Some && p@ == join_text(
                join_text(app_data->0@, "Librarian"@),
                file_name@,
            ),
            None => app_data is None,
        },
{
    proof {
        reveal_strlit("Librarian");
        assert(seq!['.'].len() == 1 && seq!['.', '.'].len() == 2);
    }
    match app_data {
        Some(dir) => Some(dir.join("Librarian").join(file_name)),
        None => None,
    }
}

/// Which of the two places a configuration file is read from and written to: beside the
/// executable if it is there already, else the application data.
pub fn config_path_for(
    portable: Option<WinPath>,
    portable_exists: bool,
    roaming: Option<WinPath>,
) -> (r: Option<WinPath>)
    ensures
        r == (if portable is Some && portable_exists {
            portable
        } else {
            roaming
        }),
{
    if portable.is_some() && portable_exists {
        portable
    } else {
        roaming
    }
}

/// A line of the settings file sets what it names and nothing else. A word that means nothing
/// leaves the setting as it is, and so does a name that is not known; hidden items are shown for
/// `true` alone.
pub proof fn law_line_sets_what_it_names(s: Settings, key: Seq<char>, value: Seq<char>)
    ensures
        ({
            let now = with_value(s, key, value);
            &&& now.sort.folders_first == s.sort.folders_first
            &&& key != "show_hidden"@ ==> now.show_hidden == s.show_hidden
            &&& key != "sort_key"@ ==> now.sort.key == s.sort.key
            &&& key != "sort_order"@ ==> now.sort.order == s.sort.order
            &&& key != "view_mode"@ ==> now.view_mode == s.view_mode
            &&& key == "show_hidden"@ ==> now.show_hidden == (value == "true"@)
            &&& key == "sort_key"@ ==> now.sort.key == s.sort.key || key_text(now.sort.key)
                == value
            &&& key == "sort_order"@ ==> now.sort.order == s.sort.order || order_text(
                now.sort.order,
            ) == value
            &&& key == "view_mode"@ ==> now.view_mode == s.view_mode || mode_text(now.view_mode)
                == value
        }),
{
    reveal_strlit("show_hidden");
    reveal_strlit("sort_key");
    reveal_strlit("sort_order");
    reveal_strlit("view_mode");
    assert("show_hidden"@.len() == 11 && "sort_key"@.len() == 8);
    assert("sort_order"@.len() == 10 && "view_mode"@.len() == 9);
}

/// Of two lines for one setting the later one counts: lines are read one after the other, each
/// on top of those before.
pub proof fn law_later_lines_count(s: Settings, l: Seq<Seq<char>>, line: Seq<char>)
    ensures
        with_lines(s, l.push(line)) == with_line(with_lines(s, l), line),
        with_lines(s, seq![]) == s,
    decreases l.len(),
{
    if l.len() == 0 {
        assert(l.push(line).drop_first() =~= seq![]);
        assert(l.push(line)[0] == line);
        reveal_with_fuel(with_lines, 2);
        assert(l =~= seq![]);
    } else {
        law_later_lines_count(with_line(s, l[0]), l.drop_first(), line);
        assert(l.push(line).drop_first() =~= l.drop_first().push(line));
        assert(l.push(line)[0] == l[0]);
    }
}

/// A line of the settings file is a name and a value around its first equals sign, with or
/// without white space; a line without one says nothing. An empty file gives the defaults:
/// hidden items are not shown, folders come first, and the list is by name in the details view.
pub proof fn law_line_is_read_around_its_equals_sign(
    s: Settings,
    key: Seq<char>,
    value: Seq<char>,
)
    requires
        forall|i: int| 0 <= i < key.len() ==> #[trigger] key[i] != '=',
    ensures
        with_line(s, key + seq!['='] + value) == with_value(s, trim(key), trim(value)),
        with_line(s, key) == s,
        settings_from(seq![]) == (Settings {
            show_hidden: false,
            sort: Sort { key: SortKey::Name, order: SortOrder::Ascending, folders_first: true },
            view_mode: ViewMode::Details,
        }),
{
    crate::text::law_fields_stand_between_separators(key, value, '=');
    assert(lines(Seq::<char>::empty()) =~= seq![]);
}

/// A line of the columns file is a layout and a path around its first bar; without a path, or
/// with a layout that cannot be read, it says nothing. Of two lines for a folder the later one
/// counts.
pub proof fn law_column_line_is_read_around_its_bar(
    encoded: Seq<char>,
    path: Seq<char>,
    fields: Seq<Option<u32>>,
    l: Seq<Seq<char>>,
    widths: Seq<Vec<Option<u32>>>,
    n: int,
)
    requires
        forall|i: int| 0 <= i < encoded.len() ==> #[trigger] encoded[i] != '|',
        0 <= n,
    ensures
        ({
            let got = column_entry(encoded + seq!['|'] + path, fields);
            &&& got is Some <==> trim(path).len() > 0 && layout_from(trim(encoded), fields) is Some
            &&& got matches Some((p, layout)) ==> p == trim(path) && Some(layout) == layout_from(
                trim(encoded),
                fields,
            )
        }),
        column_entry(encoded, fields) is None,
        columns_from(l, widths, 0) == Map::<Seq<Comp>, ColumnLayout>::empty(),
        column_entry(l[n], widths[n]@) is None ==> columns_from(l, widths, n + 1) == columns_from(
            l,
            widths,
            n,
        ),
        column_entry(l[n], widths[n]@) matches Some((p, layout)) ==> columns_from(
            l,
            widths,
            n + 1,
        ) == columns_from(l, widths, n).insert(comps(p), layout),
{
    crate::text::law_fields_stand_between_separators(encoded, path, '|');
}

} // verus!
