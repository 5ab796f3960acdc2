//! The state tracker and run-change reporting.
//!
//! After a successful run the tool records the files it saw, one
//! root-relative path per line, in a hidden snapshot file at the scanned
//! root. The next run reads it back and reports what changed, as a pure
//! set-membership difference over relative paths. This module holds the
//! text of that snapshot and the difference counts; reading and writing the
//! file itself is the caller's business.

use vstd::prelude::*;
use vstd::string::*;
use crate::organizer::{state_file_chars, state_file_name};
use crate::text::{
    find_first_in, region_eq, string_eq, strip_cr, split_on, trim_seq, views_of_strings,
};

verus! {

/// Where the snapshot lives: directly under the scanned root, by its fixed
/// hidden name.
pub fn state_path(base_dir: &str) -> (r: String)
    ensures
        r@ == base_dir@ + seq!['/'] + state_file_chars(),
{
    proof {
        reveal_strlit("/");
        assert("/"@ =~= seq!['/']);
    }
    let mut r = String::new();
    r.append(base_dir);
    r.append("/");
    r.append(state_file_name());
    proof {
        assert(r@ =~= base_dir@ + seq!['/'] + state_file_chars());
    }
    r
}

/// A path relative to `base`: what follows `base` and one separator.
/// A path not strictly under `base` has no relative form and is ignored
/// wherever relative paths are collected.
pub open spec fn rel_of(p: Seq<char>, base: Seq<char>) -> Option<Seq<char>> {
    if p.len() > base.len() && p.take(base.len() as int) == base && p[base.len() as int] == '/' {
        Option::Some(p.skip(base.len() as int + 1))
    } else {
        Option::None
    }
}

/// The relative forms of a file list, in order, paths without one left out.
pub open spec fn rels_of(base: Seq<char>, files: Seq<Seq<char>>) -> Seq<Seq<char>>
    decreases files.len(),
{
    if files.len() == 0 {
        Seq::empty()
    } else {
        let rest = rels_of(base, files.drop_last());
        match rel_of(files.last(), base) {
            Option::Some(r) => rest.push(r),
            Option::None => rest,
        }
    }
}

/// The snapshot text for a file list: each file's relative path, one per
/// line, in the given order.
pub open spec fn render_lines(base: Seq<char>, files: Seq<Seq<char>>) -> Seq<char>
    decreases files.len(),
{
    if files.len() == 0 {
        Seq::empty()
    } else {
        render_lines(base, files.drop_last()) + match rel_of(files.last(), base) {
            Option::Some(r) => r.push('\n'),
            Option::None => Seq::<char>::empty(),
        }
    }
}

/// The start of the relative form of `path` under `base`, if it has one.
fn rel_start(path: &String, base: &str) -> (r: Option<usize>)
    ensures
        match r {
            Option::Some(lo) => rel_of(path@, base@) is Some && lo <= path@.len()
                && path@.skip(lo as int) == rel_of(path@, base@)->Some_0
                && lo == base@.len() + 1,
            Option::None => rel_of(path@, base@) is None,
        },
{
    let plen = path.as_str().unicode_len();
    let blen = base.unicode_len();
    if plen > blen && region_eq(path.as_str(), 0, blen, base)
        && path.as_str().get_char(blen) == '/' {
        assert(path@.subrange(0, blen as int) =~= path@.take(blen as int));
        Option::Some(blen + 1)
    } else {
        proof {
            if plen <= blen {
            } else {
                assert(path@.subrange(0, blen as int) =~= path@.take(blen as int));
            }
        }
        Option::None
    }
}

/// Renders the snapshot text for a file list: one relative path per line,
/// in the given order; files not under `base` are left out.
#[verifier::loop_isolation(false)]
pub fn render_state(base_dir: &str, files: &Vec<String>) -> (r: String)
    ensures
        r@ == render_lines(base_dir@, views_of_strings(files@)),
{
    proof {
        reveal_strlit("\n");
        assert("\n"@ =~= seq!['\n']);
    }
    let ghost fviews = views_of_strings(files@);
    let mut out = String::new();
    let mut i: usize = 0;
    proof {
        assert(fviews.take(0) =~= Seq::<Seq<char>>::empty());
    }
    while i < files.len()
        invariant
            0 <= i <= files@.len(),
            out@ == render_lines(base_dir@, fviews.take(i as int)),
        decreases files@.len() - i,
    {
        proof {
            assert(fviews.take(i + 1).drop_last() =~= fviews.take(i as int));
            assert(fviews.take(i + 1).last() == fviews[i as int]);
        }
        let file = &files[i];
        match rel_start(file, base_dir) {
            Option::Some(lo) => {
                let rel = file.as_str().substring_char(lo, file.as_str().unicode_len());
                out.append(rel);
                out.append("\n");
                proof {
                    assert(rel@ =~= file@.skip(lo as int));
                    assert(out@ =~= render_lines(base_dir@, fviews.take(i as int))
                        + (rel_of(fviews[i as int], base_dir@)->Some_0).push('\n'));
                }
            },
            Option::None => {},
        }
        i = i + 1;
    }
    proof {
        assert(fviews.take(files@.len() as int) =~= fviews);
    }
    out
}

/// The files a snapshot text names: each non-blank line, joined back under
/// `base`, in order.
pub open spec fn parse_lines(base: Seq<char>, pieces: Seq<Seq<char>>) -> Seq<Seq<char>>
    decreases pieces.len(),
{
    if pieces.len() == 0 {
        Seq::empty()
    } else {
        let rest = parse_lines(base, pieces.drop_last());
        let raw = strip_cr(pieces.last());
        if trim_seq(raw).len() == 0 {
            rest
        } else {
            rest.push(base + seq!['/'] + raw)
        }
    }
}

/// What parsing snapshot text yields.
pub open spec fn spec_parse_state(base: Seq<char>, content: Seq<char>) -> Seq<Seq<char>> {
    parse_lines(base, split_on(content, '\n'))
}

/// A piece prepended to the parsed lines parses to its own lines followed
/// by theirs.
pub proof fn lemma_parse_lines_cons(base: Seq<char>, piece: Seq<char>, rest: Seq<Seq<char>>)
    ensures
        parse_lines(base, seq![piece] + rest)
            == parse_lines(base, seq![piece]) + parse_lines(base, rest),
    decreases rest.len(),
{
    let whole = seq![piece] + rest;
    if rest.len() == 0 {
        assert(whole =~= seq![piece]);
        assert(parse_lines(base, seq![piece])
            =~= parse_lines(base, seq![piece]) + parse_lines(base, Seq::<Seq<char>>::empty()));
    } else {
        assert(whole.drop_last() =~= seq![piece] + rest.drop_last());
        assert(whole.last() == rest.last());
        lemma_parse_lines_cons(base, piece, rest.drop_last());
        assert(parse_lines(base, whole)
            =~= parse_lines(base, seq![piece]) + parse_lines(base, rest));
    }
}

/// Parses snapshot text back into a file list: every non-blank line is one
/// file, joined back under `base`, in order.
#[verifier::loop_isolation(false)]
pub fn parse_state(base_dir: &str, content: &str) -> (r: Vec<String>)
    ensures
        views_of_strings(r@) == spec_parse_state(base_dir@, content@),
{
    proof {
        reveal_strlit("/");
        assert("/"@ =~= seq!['/']);
        assert(content@.skip(0) =~= content@);
    }
    let mut out: Vec<String> = Vec::new();
    let len = content.unicode_len();
    let mut pos: usize = 0;
    let mut finished = false;
    while !finished
        invariant
            pos <= len == content@.len(),
            !finished ==> spec_parse_state(base_dir@, content@) == views_of_strings(out@)
                + parse_lines(base_dir@, split_on(content@.skip(pos as int), '\n')),
            finished ==> spec_parse_state(base_dir@, content@) == views_of_strings(out@),
        decreases len - pos, 1int - (if finished { 1int } else { 0int }),
    {
        let ghost remaining = content@.skip(pos as int);
        let nl = find_first_in(content, pos, len, '\n');
        let piece_end = match nl {
            Option::Some(i) => i,
            Option::None => len,
        };
        proof {
            assert forall|j: int| 0 <= j < piece_end - pos implies remaining[j] != '\n' by {
                assert(remaining[j] == content@[pos + j]);
            }
            if piece_end < len {
                assert(remaining[piece_end - pos] == '\n');
            }
            crate::text::lemma_split_on_first(remaining, '\n', piece_end - pos);
        }
        let ghost piece = remaining.take(piece_end - pos);
        proof {
            assert(piece =~= content@.subrange(pos as int, piece_end as int));
        }
        let raw_end = if piece_end > pos && content.get_char(piece_end - 1) == '\r' {
            piece_end - 1
        } else {
            piece_end
        };
        let ghost raw = strip_cr(piece);
        proof {
            assert(raw =~= content@.subrange(pos as int, raw_end as int));
        }
        let (t_lo, t_hi) = crate::text::trim_range(content, pos, raw_end);
        let ghost prev_out = views_of_strings(out@);
        if t_lo < t_hi {
            let mut file = String::new();
            file.append(base_dir);
            file.append("/");
            file.append(content.substring_char(pos, raw_end));
            proof {
                assert(file@ =~= base_dir@ + seq!['/'] + raw);
            }
            out.push(file);
            proof {
                assert(views_of_strings(out@)
                    =~= prev_out.push(base_dir@ + seq!['/'] + raw));
                assert(parse_lines(base_dir@, Seq::<Seq<char>>::empty())
                    == Seq::<Seq<char>>::empty());
                assert(seq![piece].drop_last() =~= Seq::<Seq<char>>::empty());
                assert(seq![piece].last() == piece);
                assert(parse_lines(base_dir@, seq![piece])
                    =~= Seq::<Seq<char>>::empty().push(base_dir@ + seq!['/'] + raw));
            }
        } else {
            proof {
                assert(trim_seq(raw).len() == 0);
                assert(parse_lines(base_dir@, Seq::<Seq<char>>::empty())
                    == Seq::<Seq<char>>::empty());
                assert(seq![piece].drop_last() =~= Seq::<Seq<char>>::empty());
                assert(seq![piece].last() == piece);
                assert(parse_lines(base_dir@, seq![piece]) =~= Seq::<Seq<char>>::empty());
            }
        }
        proof {
            let pieces = split_on(remaining, '\n');
            if piece_end < len {
                let rest = split_on(remaining.skip(piece_end - pos + 1), '\n');
                assert(pieces == seq![piece] + rest);
                lemma_parse_lines_cons(base_dir@, piece, rest);
                assert(remaining.skip(piece_end - pos + 1) =~= content@.skip(piece_end + 1));
                assert(views_of_strings(out@) + parse_lines(base_dir@, rest)
                    =~= prev_out + parse_lines(base_dir@, pieces));
            } else {
                assert(pieces == seq![piece]);
                assert(views_of_strings(out@) =~= prev_out + parse_lines(base_dir@, pieces));
            }
        }
        match nl {
            Option::Some(i) => {
                pos = i + 1;
            },
            Option::None => {
                finished = true;
            },
        }
    }
    out
}

/// Pushing an element onto a sequence inserts it into the sequence's set.
pub proof fn lemma_push_to_set<A>(s: Seq<A>, a: A)
    ensures
        s.push(a).to_set() == s.to_set().insert(a),
{
    assert forall|x: A| s.push(a).to_set().contains(x)
        implies s.to_set().insert(a).contains(x) by {
        let i = choose|i: int| 0 <= i < s.push(a).len() && s.push(a)[i] == x;
        if i < s.len() {
            assert(s[i] == x);
        }
    }
    assert forall|x: A| s.to_set().insert(a).contains(x)
        implies s.push(a).to_set().contains(x) by {
        if x == a {
            assert(s.push(a)[s.len() as int] == x);
        } else {
            let i = choose|i: int| 0 <= i < s.len() && s[i] == x;
            assert(s.push(a)[i] == x);
        }
    }
    assert(s.push(a).to_set() =~= s.to_set().insert(a));
}

/// Whether one of the first `upto` entries of `v` equals `s`.
fn contains_str(v: &Vec<String>, upto: usize, s: &String) -> (r: bool)
    requires
        upto <= v@.len(),
    ensures
        r == views_of_strings(v@.take(upto as int)).contains(s@),
{
    let ghost pv = views_of_strings(v@.take(upto as int));
    let mut j: usize = 0;
    while j < upto
        invariant
            0 <= j <= upto <= v@.len(),
            pv == views_of_strings(v@.take(upto as int)),
            forall|k: int| 0 <= k < j ==> pv[k] != s@,
        decreases upto - j,
    {
        if string_eq(&v[j], s) {
            assert(pv[j as int] == s@);
            return true;
        }
        assert(pv[j as int] != s@);
        j = j + 1;
    }
    proof {
        if pv.contains(s@) {
            let k = choose|k: int| 0 <= k < pv.len() && pv[k] == s@;
            assert(pv[k] != s@);
        }
    }
    false
}

/// How many distinct entries of `curr` are absent from `prev`.
#[verifier::loop_isolation(false)]
fn count_new(curr: &Vec<String>, prev: &Vec<String>) -> (n: usize)
    ensures
        n == views_of_strings(curr@).to_set().difference(
            views_of_strings(prev@).to_set(),
        ).len(),
{
    broadcast use vstd::set::group_set_axioms;
    broadcast use vstd::seq_lib::seq_to_set_is_finite;

    let ghost cv = views_of_strings(curr@);
    let ghost pset = views_of_strings(prev@).to_set();
    let mut n: usize = 0;
    let mut i: usize = 0;
    proof {
        assert(cv.take(0) =~= Seq::<Seq<char>>::empty());
        assert(cv.take(0).to_set().difference(pset) =~= Set::<Seq<char>>::empty());
        assert(prev@.take(prev@.len() as int) =~= prev@);
    }
    while i < curr.len()
        invariant
            0 <= i <= curr@.len(),
            n <= i,
            n == cv.take(i as int).to_set().difference(pset).len(),
        decreases curr@.len() - i,
    {
        let ghost x = cv[i as int];
        let ghost old_d = cv.take(i as int).to_set().difference(pset);
        let in_prev = contains_str(prev, prev.len(), &curr[i]);
        let seen = contains_str(curr, i, &curr[i]);
        proof {
            assert(cv.take(i + 1) =~= cv.take(i as int).push(x));
            lemma_push_to_set(cv.take(i as int), x);
            assert(in_prev == pset.contains(x));
            assert(views_of_strings(curr@.take(i as int)) =~= cv.take(i as int));
            assert(seen == cv.take(i as int).to_set().contains(x));
            if in_prev || seen {
                assert(cv.take(i + 1).to_set().difference(pset) =~= old_d);
            } else {
                assert(cv.take(i + 1).to_set().difference(pset) =~= old_d.insert(x));
                assert(!old_d.contains(x));
                assert(cv.take(i as int).to_set().finite());
                assert(old_d.finite());
                assert(old_d.insert(x).len() == old_d.len() + 1);
            }
        }
        if !in_prev && !seen {
            n = n + 1;
        }
        i = i + 1;
    }
    proof {
        assert(cv.take(curr@.len() as int) =~= cv);
    }
    n
}

/// The pure change report between two absolute file lists: how many paths
/// are new in `after`, and how many of `before` are gone, as a set
/// difference in both directions.
pub fn diff_files(before: &Vec<String>, after: &Vec<String>) -> (r: (usize, usize))
    ensures
        r.0 == views_of_strings(after@).to_set().difference(
            views_of_strings(before@).to_set(),
        ).len(),
        r.1 == views_of_strings(before@).to_set().difference(
            views_of_strings(after@).to_set(),
        ).len(),
{
    (count_new(after, before), count_new(before, after))
}

/// The relative forms of a file list, paths not under `base` left out.
#[verifier::loop_isolation(false)]
fn relative_list(files: &Vec<String>, base: &str) -> (r: Vec<String>)
    ensures
        views_of_strings(r@) == rels_of(base@, views_of_strings(files@)),
{
    let ghost fviews = views_of_strings(files@);
    let mut out: Vec<String> = Vec::new();
    let mut i: usize = 0;
    proof {
        assert(fviews.take(0) =~= Seq::<Seq<char>>::empty());
    }
    while i < files.len()
        invariant
            0 <= i <= files@.len(),
            views_of_strings(out@) == rels_of(base@, fviews.take(i as int)),
        decreases files@.len() - i,
    {
        proof {
            assert(fviews.take(i + 1).drop_last() =~= fviews.take(i as int));
            assert(fviews.take(i + 1).last() == fviews[i as int]);
        }
        let ghost prev_out = views_of_strings(out@);
        let file = &files[i];
        match rel_start(file, base) {
            Option::Some(lo) => {
                let rel = file.as_str().substring_char(lo, file.as_str().unicode_len()).to_owned();
                proof {
                    assert(rel@ =~= file@.skip(lo as int));
                }
                out.push(rel);
                proof {
                    assert(views_of_strings(out@)
                        =~= prev_out.push(rel_of(fviews[i as int], base@)->Some_0));
                }
            },
            Option::None => {},
        }
        i = i + 1;
    }
    proof {
        assert(fviews.take(files@.len() as int) =~= fviews);
    }
    out
}

/// The change report between the previous snapshot and the current file
/// list, both reduced to paths relative to `base_dir`: paths in `current`
/// but not `previous` count as added, the opposite as removed, and paths
/// with no relative form are ignored.
pub fn diff_state(previous: &Vec<String>, current: &Vec<String>, base_dir: &str) -> (r: (
    usize,
    usize,
))
    ensures
        r.0 == rels_of(base_dir@, views_of_strings(current@)).to_set().difference(
            rels_of(base_dir@, views_of_strings(previous@)).to_set(),
        ).len(),
        r.1 == rels_of(base_dir@, views_of_strings(previous@)).to_set().difference(
            rels_of(base_dir@, views_of_strings(current@)).to_set(),
        ).len(),
{
    let prev_rel = relative_list(previous, base_dir);
    let curr_rel = relative_list(current, base_dir);
    diff_files(&prev_rel, &curr_rel)
}

/// Why a root directory is rejected before anything is touched.
#[derive(Clone, Copy, Debug, PartialEq, Eq, Structural)]
pub enum DirectoryError {
    NotFound,
    NotADirectory,
}

/// The decision whether a root is usable, from what the filesystem reports
/// of it: a missing path and a non-directory are rejected, in that order.
pub fn validate_directory(exists: bool, is_dir: bool) -> (r: Result<(), DirectoryError>)
    ensures
        r == (if !exists {
            Result::<(), DirectoryError>::Err(DirectoryError::NotFound)
        } else if !is_dir {
            Result::<(), DirectoryError>::Err(DirectoryError::NotADirectory)
        } else {
            Result::<(), DirectoryError>::Ok(())
        }),
{
    if !exists {
        Result::Err(DirectoryError::NotFound)
    } else if !is_dir {
        Result::Err(DirectoryError::NotADirectory)
    } else {
        Result::Ok(())
    }
}

/// The rule table a run uses: the built-in table, or the built-in table
/// extended by configuration text when some was given.
pub fn load_rules(config: Option<&str>) -> (r: Result<crate::rules::Rules, crate::rules::ConfigError>)
    requires
        match config {
            Option::Some(c) => c@.len() < usize::MAX,
            Option::None => true,
        },
    ensures
        match config {
            Option::Some(c) => match r {
                Result::Ok(rules) => crate::rules::spec_from_config(c@)
                    == Result::<Map<Seq<char>, crate::rules::Category>, crate::rules::ConfigErrorView>::Ok(
                    rules.to_table(),
                ),
                Result::Err(e) => crate::rules::spec_from_config(c@)
                    == Result::<Map<Seq<char>, crate::rules::Category>, crate::rules::ConfigErrorView>::Err(
                    e@,
                ),
            },
            Option::None => match r {
                Result::Ok(rules) => forall|e: Seq<char>| #[trigger] rules.rule_for(e)
                    == crate::rules::default_category_of(e),
                Result::Err(_) => false,
            },
        },
{
    match config {
        Option::Some(content) => crate::rules::Rules::from_config(content),
        Option::None => Result::Ok(crate::rules::Rules::default()),
    }
}

} // verus!
