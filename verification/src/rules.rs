//! The rule table: a mapping from lowercase file extensions to categories,
//! seeded with a built-in default mapping and extensible from configuration
//! text. Classification of a path extracts its extension, lowercases it and
//! looks it up; files without an extension, or with an unmapped one, fall
//! into `Others`.

use vstd::prelude::*;
use vstd::string::*;
use crate::text::{
    lower_seq, lower_chars_of_range, chars_of_range, find_last_in, find_first_in,
    trim_seq, trim_range, strip_cr, strip_dots, split_on, prefix_before_first,
    suffix_after_first, lower_char, char_to_lower,
};
use crate::paths::{ext_of, file_name_of};

verus! {

/// The closed set of classification buckets. `Others` is the catch-all.
#[derive(Clone, Copy, Debug, PartialEq, Eq, Structural)]
pub enum Category {
    Images,
    Documents,
    Videos,
    Audio,
    Archives,
    Others,
}

/// One extension-to-category rule. The extension is stored lowercased,
/// without a leading dot.
#[derive(Debug)]
pub struct RuleEntry {
    pub ext: Vec<char>,
    pub category: Category,
}

/// The rule table. Later entries take precedence over earlier ones, so a
/// rule added from configuration overrides a built-in one for the same
/// extension.
#[derive(Debug)]
pub struct Rules {
    pub entries: Vec<RuleEntry>,
}

/// The category an extension is mapped to: the most recently added rule for
/// that extension wins; `None` when no rule mentions it.
pub open spec fn lookup_rules(entries: Seq<RuleEntry>, e: Seq<char>) -> Option<Category>
    decreases entries.len(),
{
    if entries.len() == 0 {
        None
    } else if entries.last().ext@ == e {
        Some(entries.last().category)
    } else {
        lookup_rules(entries.drop_last(), e)
    }
}

/// What `classify` returns for a path, given a rule table: the category
/// mapped to the lowercased extension, or `Others` when the path has no
/// extension or no rule mentions it.
pub open spec fn spec_classify(rules: Rules, p: Seq<char>) -> Category {
    match ext_of(p) {
        Option::None => Category::Others,
        Option::Some(e) => match lookup_rules(rules.entries@, lower_seq(e)) {
            Option::None => Category::Others,
            Option::Some(c) => c,
        },
    }
}

/// The lowercased extension of `path`, ready to be looked up; `None` when
/// the path has no extension.
fn ext_key(path: &str) -> (r: Option<Vec<char>>)
    ensures
        match r {
            Option::Some(v) => ext_of(path@) is Some && v@ == lower_seq(ext_of(path@)->Some_0),
            Option::None => ext_of(path@) is None,
        },
{
    let len = path.unicode_len();
    let name_lo: usize = match find_last_in(path, 0, len, '/') {
        Option::Some(i) => i + 1,
        Option::None => 0,
    };
    proof {
        crate::text::lemma_suffix_after_last_at(path@, '/', name_lo - 1);
    }
    let ghost name = path@.subrange(name_lo as int, len as int);
    match find_last_in(path, name_lo, len, '.') {
        Option::Some(d) if d > name_lo => {
            proof {
                assert(name[d - name_lo] == '.');
                assert forall|j: int| d - name_lo < j < name.len() implies name[j] != '.' by {
                    assert(name[j] == path@[name_lo + j]);
                }
                crate::text::lemma_suffix_after_last_at(name, '.', d - name_lo);
                assert(name.subrange(d - name_lo + 1, name.len() as int)
                    =~= path@.subrange(d + 1, len as int));
                assert(file_name_of(path@) == name);
                assert(file_name_of(path@)[d - name_lo] == '.');
                assert(ext_of(path@) is Some);
                assert(ext_of(path@)->Some_0 == path@.subrange(d + 1, len as int));
            }
            Option::Some(lower_chars_of_range(path, d + 1, len))
        },
        r => {
            proof {
                assert forall|i: int| 1 <= i < name.len() implies name[i] != '.' by {
                    assert(name[i] == path@[name_lo + i]);
                    if let Option::Some(d) = r {
                        assert(name_lo + i != d);
                    }
                }
            }
            Option::None
        },
    }
}

impl Rules {
    /// The table as a mapping, the view the contracts speak of.
    pub open spec fn rule_for(self, e: Seq<char>) -> Option<Category> {
        lookup_rules(self.entries@, e)
    }

    /// Looks the extension of `path` up in the table, case-insensitively;
    /// paths without an extension, and extensions no rule mentions, are
    /// `Others`.
    #[verifier::loop_isolation(false)]
    pub fn classify(&self, path: &str) -> (c: Category)
        ensures
            c == spec_classify(*self, path@),
    {
        let key = match ext_key(path) {
            Option::Some(k) => k,
            Option::None => {
                return Category::Others;
            },
        };
        let mut i: usize = self.entries.len();
        assert(self.entries@.take(i as int) =~= self.entries@);
        while i > 0
            invariant
                0 <= i <= self.entries@.len(),
                lookup_rules(self.entries@, key@)
                    == lookup_rules(self.entries@.take(i as int), key@),
            decreases i,
        {
            let prefix_len = i;
            i = i - 1;
            if crate::text::chars_eq(&self.entries[i].ext, &key) {
                assert(self.entries@.take(prefix_len as int).last() == self.entries@[i as int]);
                assert(lookup_rules(self.entries@.take(prefix_len as int), key@)
                    == Option::Some(self.entries@[i as int].category));
                return self.entries[i].category;
            }
            assert(self.entries@.take(prefix_len as int).drop_last()
                =~= self.entries@.take(i as int));
        }
        assert(self.entries@.take(0) =~= Seq::<RuleEntry>::empty());
        Category::Others
    }
}

/// The built-in image extensions.
pub open spec fn default_images() -> Seq<Seq<char>> {
    seq![
        "jpg"@, "jpeg"@, "png"@, "gif"@, "bmp"@, "tiff"@, "tif"@, "webp"@, "svg"@,
        "heic"@, "heif"@, "ico"@, "raw"@, "nef"@, "cr2"@, "arw"@, "dng"@,
    ]
}

/// The built-in document extensions.
pub open spec fn default_documents() -> Seq<Seq<char>> {
    seq![
        "pdf"@, "doc"@, "docx"@, "docm"@, "xls"@, "xlsx"@, "xlsm"@, "ppt"@, "pptx"@,
        "pptm"@, "txt"@, "md"@, "rtf"@, "csv"@, "tsv"@, "json"@, "yaml"@, "yml"@,
        "xml"@, "log"@, "ini"@, "cfg"@,
    ]
}

/// The built-in video extensions.
pub open spec fn default_videos() -> Seq<Seq<char>> {
    seq![
        "mp4"@, "mkv"@, "mov"@, "avi"@, "wmv"@, "flv"@, "webm"@, "m4v"@, "3gp"@,
        "3g2"@, "mpg"@, "mpeg"@, "ts"@, "mts"@,
    ]
}

/// The built-in audio extensions.
pub open spec fn default_audio() -> Seq<Seq<char>> {
    seq![
        "mp3"@, "wav"@, "flac"@, "aac"@, "ogg"@, "m4a"@, "wma"@, "aiff"@, "aif"@,
        "amr"@, "opus"@,
    ]
}

/// The built-in archive extensions.
pub open spec fn default_archives() -> Seq<Seq<char>> {
    seq![
        "zip"@, "rar"@, "7z"@, "tar"@, "gz"@, "bz2"@, "xz"@, "tgz"@, "tbz2"@, "lz"@,
        "lzma"@, "zst"@, "iso"@,
    ]
}

/// The category the built-in table maps an extension to. The lists are
/// checked in reverse insertion order; they share no extension, so each
/// extension simply gets its own list's category.
pub open spec fn default_category_of(e: Seq<char>) -> Option<Category> {
    if default_archives().contains(e) {
        Option::Some(Category::Archives)
    } else if default_audio().contains(e) {
        Option::Some(Category::Audio)
    } else if default_videos().contains(e) {
        Option::Some(Category::Videos)
    } else if default_documents().contains(e) {
        Option::Some(Category::Documents)
    } else if default_images().contains(e) {
        Option::Some(Category::Images)
    } else {
        Option::None
    }
}

/// Appends one rule per name, all mapping to `category`.
#[verifier::loop_isolation(false)]
fn add_rules(entries: &mut Vec<RuleEntry>, names: &Vec<&str>, category: Category)
    ensures
        forall|e: Seq<char>| #[trigger] lookup_rules(final(entries)@, e)
            == if names@.map_values(|s: &str| s@).contains(e) {
                Option::Some(category)
            } else {
                lookup_rules(old(entries)@, e)
            },
{
    let ghost base = entries@;
    let mut k: usize = 0;
    while k < names.len()
        invariant
            0 <= k <= names@.len(),
            forall|e: Seq<char>| #[trigger] lookup_rules(entries@, e)
                == if exists|i: int| 0 <= i < k && names@[i]@ == e {
                    Option::Some(category)
                } else {
                    lookup_rules(base, e)
                },
        decreases names@.len() - k,
    {
        let ghost prev = entries@;
        let name = names[k];
        let len = name.unicode_len();
        let ext = crate::text::chars_of_range(name, 0, len);
        assert(ext@ =~= name@);
        entries.push(RuleEntry { ext, category });
        proof {
            assert(entries@.drop_last() =~= prev);
            assert forall|e: Seq<char>| #[trigger] lookup_rules(entries@, e)
                == if exists|i: int| 0 <= i < k + 1 && names@[i]@ == e {
                    Option::Some(category)
                } else {
                    lookup_rules(base, e)
                } by {
                if e == names@[k as int]@ {
                    assert(entries@.last().ext@ == e);
                } else {
                    assert(lookup_rules(entries@, e) == lookup_rules(prev, e));
                    assert((exists|i: int| 0 <= i < k + 1 && names@[i]@ == e)
                        == (exists|i: int| 0 <= i < k && names@[i]@ == e));
                }
            }
        }
        k = k + 1;
    }
    proof {
        assert forall|e: Seq<char>| #[trigger] lookup_rules(entries@, e)
            == if names@.map_values(|s: &str| s@).contains(e) {
                Option::Some(category)
            } else {
                lookup_rules(base, e)
            } by {
            let m = names@.map_values(|s: &str| s@);
            if names@.map_values(|s: &str| s@).contains(e) {
                let i = choose|i: int| 0 <= i < m.len() && m[i] == e;
                assert(names@[i]@ == e);
            }
            if exists|i: int| 0 <= i < names@.len() && names@[i]@ == e {
                let i = choose|i: int| 0 <= i < names@.len() && names@[i]@ == e;
                assert(m[i] == e);
            }
        }
    }
}

impl Rules {
    /// The built-in table, covering common image, document, video, audio and
    /// archive extensions.
    pub fn default() -> (rules: Rules)
        ensures
            forall|e: Seq<char>| #[trigger] rules.rule_for(e) == default_category_of(e),
    {
        let mut entries: Vec<RuleEntry> = Vec::new();
        let images: Vec<&str> = vec![
            "jpg", "jpeg", "png", "gif", "bmp", "tiff", "tif", "webp", "svg",
            "heic", "heif", "ico", "raw", "nef", "cr2", "arw", "dng",
        ];
        assert(images@.map_values(|s: &str| s@) =~= default_images());
        add_rules(&mut entries, &images, Category::Images);
        let documents: Vec<&str> = vec![
            "pdf", "doc", "docx", "docm", "xls", "xlsx", "xlsm", "ppt", "pptx",
            "pptm", "txt", "md", "rtf", "csv", "tsv", "json", "yaml", "yml",
            "xml", "log", "ini", "cfg",
        ];
        assert(documents@.map_values(|s: &str| s@) =~= default_documents());
        add_rules(&mut entries, &documents, Category::Documents);
        let videos: Vec<&str> = vec![
            "mp4", "mkv", "mov", "avi", "wmv", "flv", "webm", "m4v", "3gp",
            "3g2", "mpg", "mpeg", "ts", "mts",
        ];
        assert(videos@.map_values(|s: &str| s@) =~= default_videos());
        add_rules(&mut entries, &videos, Category::Videos);
        let audio: Vec<&str> = vec![
            "mp3", "wav", "flac", "aac", "ogg", "m4a", "wma", "aiff", "aif",
            "amr", "opus",
        ];
        assert(audio@.map_values(|s: &str| s@) =~= default_audio());
        add_rules(&mut entries, &audio, Category::Audio);
        let archives: Vec<&str> = vec![
            "zip", "rar", "7z", "tar", "gz", "bz2", "xz", "tgz", "tbz2", "lz",
            "lzma", "zst", "iso",
        ];
        assert(archives@.map_values(|s: &str| s@) =~= default_archives());
        add_rules(&mut entries, &archives, Category::Archives);
        Rules { entries }
    }

    /// Adds one rule, overriding any earlier rule for the same extension.
    /// An assignment to `Others` is ignored: unmapped extensions already
    /// fall into `Others`.
    pub fn insert(&mut self, category: Category, ext: Vec<char>)
        ensures
            forall|e: Seq<char>| #[trigger] final(self).rule_for(e)
                == if category != Category::Others && e == ext@ {
                    Option::Some(category)
                } else {
                    old(self).rule_for(e)
                },
    {
        match category {
            Category::Others => {},
            _ => {
                let ghost prev = self.entries@;
                self.entries.push(RuleEntry { ext, category });
                proof {
                    assert(self.entries@.drop_last() =~= prev);
                }
            },
        }
    }
}

/// Why configuration text was rejected: a line without `=`, or one naming
/// no known category. Both identify the line by number and content.
#[derive(Debug)]
pub enum ConfigError {
    InvalidLine { line: usize, text: String },
    UnknownCategory { line: usize, text: String },
}

/// The view of a `ConfigError`.
pub enum ConfigErrorView {
    InvalidLine { line: nat, text: Seq<char> },
    UnknownCategory { line: nat, text: Seq<char> },
}

impl View for ConfigError {
    type V = ConfigErrorView;

    open spec fn view(&self) -> ConfigErrorView {
        match self {
            ConfigError::InvalidLine { line, text } => ConfigErrorView::InvalidLine {
                line: *line as nat,
                text: text@,
            },
            ConfigError::UnknownCategory { line, text } => ConfigErrorView::UnknownCategory {
                line: *line as nat,
                text: text@,
            },
        }
    }
}

/// The category a lowercased name denotes, `None` for an unknown name.
pub open spec fn category_of_lower(x: Seq<char>) -> Option<Category> {
    if x == "images"@ {
        Option::Some(Category::Images)
    } else if x == "documents"@ {
        Option::Some(Category::Documents)
    } else if x == "videos"@ {
        Option::Some(Category::Videos)
    } else if x == "audio"@ {
        Option::Some(Category::Audio)
    } else if x == "archives"@ {
        Option::Some(Category::Archives)
    } else if x == "others"@ {
        Option::Some(Category::Others)
    } else {
        Option::None
    }
}

/// What `parse_category` returns: the name is trimmed and matched
/// case-insensitively.
pub open spec fn spec_parse_category(s: Seq<char>) -> Option<Category> {
    category_of_lower(lower_seq(trim_seq(s)))
}

/// Whether `s[from..to]`, lowercased, equals `lit`.
fn region_lower_eq(s: &str, from: usize, to: usize, lit: &str) -> (r: bool)
    requires
        from <= to <= s@.len(),
    ensures
        r == (lower_seq(s@.subrange(from as int, to as int)) == lit@),
{
    let ghost low = lower_seq(s@.subrange(from as int, to as int));
    let lit_len = lit.unicode_len();
    if to - from != lit_len {
        assert(low.len() != lit@.len());
        return false;
    }
    let mut j: usize = 0;
    while j < lit_len
        invariant
            0 <= j <= lit_len == lit@.len(),
            from + lit_len == to <= s@.len(),
            low == lower_seq(s@.subrange(from as int, to as int)),
            forall|i: int| 0 <= i < j ==> low[i] == lit@[i],
        decreases lit_len - j,
    {
        if char_to_lower(s.get_char(from + j)) != lit.get_char(j) {
            assert(low[j as int] == lower_char(s@[from + j]));
            return false;
        }
        assert(low[j as int] == lower_char(s@[from + j]));
        j = j + 1;
    }
    assert(low =~= lit@);
    true
}

/// Parses a category name: surrounding whitespace is ignored and the match
/// is case-insensitive; `None` for an unknown name.
pub fn parse_category(name: &str) -> (r: Option<Category>)
    ensures
        r == spec_parse_category(name@),
{
    let len = name.unicode_len();
    let (lo, hi) = trim_range(name, 0, len);
    assert(name@.subrange(0, len as int) =~= name@);
    if region_lower_eq(name, lo, hi, "images") {
        Option::Some(Category::Images)
    } else if region_lower_eq(name, lo, hi, "documents") {
        Option::Some(Category::Documents)
    } else if region_lower_eq(name, lo, hi, "videos") {
        Option::Some(Category::Videos)
    } else if region_lower_eq(name, lo, hi, "audio") {
        Option::Some(Category::Audio)
    } else if region_lower_eq(name, lo, hi, "archives") {
        Option::Some(Category::Archives)
    } else if region_lower_eq(name, lo, hi, "others") {
        Option::Some(Category::Others)
    } else {
        Option::None
    }
}

/// The built-in table as a mapping.
pub open spec fn default_table() -> Map<Seq<char>, Category> {
    Map::new(
        |e: Seq<char>| default_category_of(e) is Some,
        |e: Seq<char>| default_category_of(e)->Some_0,
    )
}

/// One configured extension added to the table: trimmed, leading dots
/// stripped, lowercased. An empty extension, or an assignment to `Others`,
/// changes nothing.
pub open spec fn insert_ext(
    t: Map<Seq<char>, Category>,
    category: Category,
    piece: Seq<char>,
) -> Map<Seq<char>, Category> {
    let k = lower_seq(strip_dots(trim_seq(piece)));
    if k.len() == 0 || category == Category::Others {
        t
    } else {
        t.insert(k, category)
    }
}

/// A whole comma-separated extension list added to the table, in order.
pub open spec fn insert_exts(
    t: Map<Seq<char>, Category>,
    category: Category,
    pieces: Seq<Seq<char>>,
) -> Map<Seq<char>, Category>
    decreases pieces.len(),
{
    if pieces.len() == 0 {
        t
    } else {
        insert_exts(insert_ext(t, category, pieces.first()), category, pieces.drop_first())
    }
}

/// The effect of configuration line `piece` (line number `n`) on the table.
/// Blank lines and `#` comments change nothing; a line without `=`, or with
/// an unknown category name, is the first error; otherwise every extension
/// on the right of the `=` is added.
pub open spec fn apply_line(
    t: Map<Seq<char>, Category>,
    piece: Seq<char>,
    n: nat,
) -> Result<Map<Seq<char>, Category>, ConfigErrorView> {
    let raw = strip_cr(piece);
    let line = trim_seq(raw);
    if line.len() == 0 || line.first() == '#' {
        Result::Ok(t)
    } else if !line.contains('=') {
        Result::Err(ConfigErrorView::InvalidLine { line: n, text: raw })
    } else {
        match spec_parse_category(prefix_before_first(line, '=')) {
            Option::None => Result::Err(ConfigErrorView::UnknownCategory { line: n, text: raw }),
            Option::Some(category) => Result::Ok(
                insert_exts(t, category, split_on(suffix_after_first(line, '='), ',')),
            ),
        }
    }
}

/// The lines folded over the table in order, numbered from `n`; the first
/// failing line aborts the whole load.
pub open spec fn fold_lines(
    t: Map<Seq<char>, Category>,
    pieces: Seq<Seq<char>>,
    n: nat,
) -> Result<Map<Seq<char>, Category>, ConfigErrorView>
    decreases pieces.len(),
{
    if pieces.len() == 0 {
        Result::Ok(t)
    } else {
        match apply_line(t, pieces.first(), n) {
            Result::Ok(t2) => fold_lines(t2, pieces.drop_first(), n + 1),
            Result::Err(e) => Result::Err(e),
        }
    }
}

/// What loading configuration text yields: the built-in table extended line
/// by line, or the first error.
pub open spec fn spec_from_config(
    content: Seq<char>,
) -> Result<Map<Seq<char>, Category>, ConfigErrorView> {
    fold_lines(default_table(), split_on(content, '\n'), 1)
}

/// Adds every extension of the comma-separated list `content[lo..hi]` to
/// the table, in order: each piece trimmed, leading dots stripped,
/// lowercased; empty pieces change nothing.
#[verifier::loop_isolation(false)]
fn add_extension_list(rules: &mut Rules, content: &str, lo: usize, hi: usize, category: Category)
    requires
        lo <= hi <= content@.len(),
    ensures
        final(rules).to_table() == insert_exts(
            old(rules).to_table(),
            category,
            split_on(content@.subrange(lo as int, hi as int), ','),
        ),
{
    let ghost t_line = insert_exts(
        old(rules).to_table(),
        category,
        split_on(content@.subrange(lo as int, hi as int), ','),
    );
    let mut ipos: usize = lo;
    let mut exts_done = false;
    while !exts_done
        invariant
            lo <= ipos <= hi <= content@.len(),
            !exts_done ==> insert_exts(
                rules.to_table(),
                category,
                split_on(content@.subrange(ipos as int, hi as int), ','),
            ) == t_line,
            exts_done ==> rules.to_table() == t_line,
        decreases hi - ipos, 1int - (
            if exts_done {
                1int
            } else {
                0int
            }
        ),
    {
        let ghost irem = content@.subrange(ipos as int, hi as int);
        let comma = find_first_in(content, ipos, hi, ',');
        let pend = match comma {
            Option::Some(i) => i,
            Option::None => hi,
        };
        proof {
            assert forall|j: int| 0 <= j < pend - ipos implies irem[j] != ',' by {
                assert(irem[j] == content@[ipos + j]);
            }
            if pend < hi {
                assert(irem[pend - ipos] == ',');
            }
            crate::text::lemma_split_on_first(irem, ',', pend - ipos);
        }
        let ghost ipiece = irem.take(pend - ipos);
        proof {
            assert(ipiece =~= content@.subrange(ipos as int, pend as int));
        }
        let (e_lo, e_hi) = trim_range(content, ipos, pend);
        let mut dd: usize = e_lo;
        while dd < e_hi && content.get_char(dd) == '.'
            invariant
                e_lo <= dd <= e_hi,
                forall|j: int| e_lo <= j < dd ==> content@[j] == '.',
            decreases e_hi - dd,
        {
            dd = dd + 1;
        }
        proof {
            let trimmed = content@.subrange(e_lo as int, e_hi as int);
            crate::text::lemma_strip_dots_at(trimmed, dd - e_lo);
            assert(trimmed.subrange(dd - e_lo, trimmed.len() as int)
                =~= content@.subrange(dd as int, e_hi as int));
            assert(strip_dots(trim_seq(ipiece)) == content@.subrange(dd as int, e_hi as int));
        }
        let key = lower_chars_of_range(content, dd, e_hi);
        let ghost prev_t = rules.to_table();
        if key.len() > 0 {
            rules.insert(category, key);
            proof {
                assert(rules.to_table() =~= insert_ext(prev_t, category, ipiece));
            }
        } else {
            proof {
                assert(rules.to_table() == insert_ext(prev_t, category, ipiece));
            }
        }
        proof {
            let pieces = split_on(irem, ',');
            if pend < hi {
                assert(pieces == seq![ipiece] + split_on(irem.skip(pend - ipos + 1), ','));
                assert(pieces.first() == ipiece);
                assert(pieces.drop_first() =~= split_on(irem.skip(pend - ipos + 1), ','));
                assert(irem.skip(pend - ipos + 1) =~= content@.subrange(pend + 1, hi as int));
            } else {
                assert(pieces == seq![ipiece]);
                assert(pieces.first() == ipiece);
                assert(pieces.drop_first() =~= Seq::<Seq<char>>::empty());
            }
            assert(insert_exts(prev_t, category, pieces)
                == insert_exts(rules.to_table(), category, pieces.drop_first()));
        }
        match comma {
            Option::Some(ci) => {
                ipos = ci + 1;
            },
            Option::None => {
                proof {
                    assert(insert_exts(rules.to_table(), category, Seq::<Seq<char>>::empty())
                        == rules.to_table());
                }
                exts_done = true;
            },
        }
    }
}

/// Folds one configuration line — the piece `content[pos..piece_end]`,
/// carrying line number `line_no` — into the table, or returns the error
/// that rejects it.
#[verifier::loop_isolation(false)]
fn apply_config_line(
    rules: &mut Rules,
    content: &str,
    pos: usize,
    piece_end: usize,
    line_no: usize,
) -> (r: Option<ConfigError>)
    requires
        pos <= piece_end <= content@.len(),
    ensures
        ({
            let folded = apply_line(
                old(rules).to_table(),
                content@.subrange(pos as int, piece_end as int),
                line_no as nat,
            );
            match r {
                Option::None => folded == Result::<
                    Map<Seq<char>, Category>,
                    ConfigErrorView,
                >::Ok(final(rules).to_table()),
                Option::Some(e) => folded == Result::<
                    Map<Seq<char>, Category>,
                    ConfigErrorView,
                >::Err(e@),
            }
        }),
{
    let ghost piece = content@.subrange(pos as int, piece_end as int);
    let ghost t0 = rules.to_table();
    let ghost n = line_no as nat;
    let raw_end = if piece_end > pos && content.get_char(piece_end - 1) == '\r' {
        piece_end - 1
    } else {
        piece_end
    };
    let ghost raw = strip_cr(piece);
    proof {
        assert(raw =~= content@.subrange(pos as int, raw_end as int));
    }
    let (t_lo, t_hi) = trim_range(content, pos, raw_end);
    let ghost line = trim_seq(raw);
    proof {
        assert(line == content@.subrange(t_lo as int, t_hi as int));
    }
    if t_lo == t_hi || content.get_char(t_lo) == '#' {
        proof {
            if t_lo != t_hi {
                assert(line.first() == content@[t_lo as int]);
            }
            assert(apply_line(t0, piece, n)
                == Result::<Map<Seq<char>, Category>, ConfigErrorView>::Ok(t0));
        }
    } else {
        proof {
            assert(line.len() > 0 && line.first() != '#') by {
                assert(line.first() == content@[t_lo as int]);
            }
        }
        match find_first_in(content, t_lo, t_hi, '=') {
            Option::None => {
                proof {
                    assert(!line.contains('=')) by {
                        assert forall|j: int| 0 <= j < line.len() implies line[j] != '='
                        by {
                            assert(line[j] == content@[t_lo + j]);
                        }
                    }
                }
                let text = content.substring_char(pos, raw_end).to_owned();
                assert(text@ == strip_cr(piece));
                return Option::Some(ConfigError::InvalidLine { line: line_no, text });
            },
            Option::Some(eq_i) => {
                proof {
                    assert(line[eq_i - t_lo] == '=');
                    assert(line.contains('='));
                    assert forall|j: int| 0 <= j < eq_i - t_lo implies line[j] != '=' by {
                        assert(line[j] == content@[t_lo + j]);
                    }
                    crate::text::lemma_split_first_at(line, '=', eq_i - t_lo);
                    assert(prefix_before_first(line, '=')
                        =~= content@.subrange(t_lo as int, eq_i as int));
                    assert(suffix_after_first(line, '=')
                        =~= content@.subrange(eq_i + 1, t_hi as int));
                }
                let name = content.substring_char(t_lo, eq_i);
                match parse_category(name) {
                    Option::None => {
                        let text = content.substring_char(pos, raw_end).to_owned();
                        assert(text@ == strip_cr(piece));
                        return Option::Some(ConfigError::UnknownCategory {
                            line: line_no,
                            text,
                        });
                    },
                    Option::Some(category) => {
                        let ghost rest_whole = content@.subrange(eq_i + 1, t_hi as int);
                        let ghost t_line = insert_exts(
                            t0,
                            category,
                            split_on(rest_whole, ','),
                        );
                        proof {
                            assert(apply_line(t0, piece, n)
                                == Result::<Map<Seq<char>, Category>, ConfigErrorView>::Ok(
                                t_line,
                            ));
                        }
                        add_extension_list(rules, content, eq_i + 1, t_hi, category);
                    },
                }
            },
        }
    }
    Option::None
}

impl Rules {
    /// The table as a mapping from extension to category.
    pub open spec fn to_table(self) -> Map<Seq<char>, Category> {
        Map::new(
            |e: Seq<char>| self.rule_for(e) is Some,
            |e: Seq<char>| self.rule_for(e)->Some_0,
        )
    }

    /// The built-in table extended by configuration text: one
    /// `category = ext, ext, ...` rule per line, `#` comments and blank
    /// lines ignored. The first malformed line fails the whole load.
    #[verifier::loop_isolation(false)]
    #[verifier::rlimit(80)]
    pub fn from_config(content: &str) -> (r: Result<Rules, ConfigError>)
        requires
            content@.len() < usize::MAX,
        ensures
            match r {
                Result::Ok(rules) => spec_from_config(content@)
                    == Result::<Map<Seq<char>, Category>, ConfigErrorView>::Ok(rules.to_table()),
                Result::Err(e) => spec_from_config(content@)
                    == Result::<Map<Seq<char>, Category>, ConfigErrorView>::Err(e@),
            },
    {
        let mut rules = Self::default();
        proof {
            assert(rules.to_table() =~= default_table());
            assert(content@.skip(0) =~= content@);
        }
        let len = content.unicode_len();
        let mut pos: usize = 0;
        let mut line_no: usize = 1;
        let mut finished = false;
        while !finished
            invariant
                pos <= len,
                1 <= line_no <= pos + 1,
                !finished ==> fold_lines(
                    rules.to_table(),
                    split_on(content@.skip(pos as int), '\n'),
                    line_no as nat,
                ) == spec_from_config(content@),
                finished ==> spec_from_config(content@)
                    == Result::<Map<Seq<char>, Category>, ConfigErrorView>::Ok(rules.to_table()),
            decreases len - pos, 1int - (if finished { 1int } else { 0int }),
        {
            let ghost remaining = content@.skip(pos as int);
            let nl = find_first_in(content, pos, len, '\n');
            let piece_end = match nl {
                Option::Some(i) => i,
                Option::None => len,
            };
            proof {
                assert forall|j: int| 0 <= j < piece_end - pos implies remaining[j] != '\n' by {
                    assert(remaining[j] == content@[pos + j]);
                }
                if piece_end < len {
                    assert(remaining[piece_end - pos] == '\n');
                }
                crate::text::lemma_split_on_first(remaining, '\n', piece_end - pos);
            }
            let ghost piece = remaining.take(piece_end - pos);
            proof {
                assert(piece =~= content@.subrange(pos as int, piece_end as int));
            }
            let ghost n = line_no as nat;
            let ghost t0 = rules.to_table();
            match apply_config_line(&mut rules, content, pos, piece_end, line_no) {
                Option::Some(err) => {
                    proof {
                        let pieces = split_on(remaining, '\n');
                        assert(pieces.first() == piece);
                        assert(fold_lines(t0, pieces, n)
                            == Result::<Map<Seq<char>, Category>, ConfigErrorView>::Err(err@));
                    }
                    return Result::Err(err);
                },
                Option::None => {},
            }
            // The line is folded in; step to the next one or finish.
            proof {
                let pieces = split_on(remaining, '\n');
                if piece_end < len {
                    assert(pieces == seq![piece] + split_on(remaining.skip(piece_end - pos + 1), '\n'));
                    assert(pieces.first() == piece);
                    assert(pieces.drop_first()
                        =~= split_on(remaining.skip(piece_end - pos + 1), '\n'));
                    assert(remaining.skip(piece_end - pos + 1)
                        =~= content@.skip(piece_end + 1));
                } else {
                    assert(pieces == seq![piece]);
                    assert(pieces.first() == piece);
                    assert(pieces.drop_first() =~= Seq::<Seq<char>>::empty());
                }
            }
            proof {
                let pieces = split_on(remaining, '\n');
                assert(apply_line(t0, piece, n)
                    == Result::<Map<Seq<char>, Category>, ConfigErrorView>::Ok(rules.to_table()));
                assert(fold_lines(t0, pieces, n)
                    == fold_lines(rules.to_table(), pieces.drop_first(), n + 1));
            }
            match nl {
                Option::Some(i) => {
                    pos = i + 1;
                    line_no = line_no + 1;
                },
                Option::None => {
                    proof {
                        assert(fold_lines(rules.to_table(), Seq::<Seq<char>>::empty(), n + 1)
                            == Result::<Map<Seq<char>, Category>, ConfigErrorView>::Ok(
                            rules.to_table(),
                        ));
                    }
                    finished = true;
                },
            }
        }
        Result::Ok(rules)
    }
}

} // verus!
