//! Which directory entries the duplicate finder looks at.
use crate::dupfind::config::Config;
use crate::text::{pieces_hold_no_separator, ascii_lower, eq_ignore_ascii_case, eq_ignoring_ascii_case, pieces, split_on};
use vstd::prelude::*;

verus! {

/// The last segment of `segments` that names a file or directory: one that is
/// neither empty nor `.`.
pub open spec fn last_name_segment(segments: Seq<Seq<char>>) -> Option<Seq<char>>
    decreases segments.len(),
{
    if segments.len() == 0 {
        None
    } else if segments.last().len() > 0 && segments.last() != seq!['.'] {
        Some(segments.last())
    } else {
        last_name_segment(segments.drop_last())
    }
}

/// The final component of a `/`-separated path, as `Path::file_name` gives it:
/// none where the path ends in `..` or has no named component.
pub open spec fn file_name(path: Seq<char>) -> Option<Seq<char>> {
    match last_name_segment(pieces(path, '/')) {
        Some(name) => if name == seq!['.', '.'] {
            None
        } else {
            Some(name)
        },
        None => None,
    }
}

/// The index of the last `.` in `name`, or -1 where there is none.
pub open spec fn last_dot(name: Seq<char>) -> int
    decreases name.len(),
{
    if name.len() == 0 {
        -1
    } else if name.last() == '.' {
        name.len() - 1
    } else {
        last_dot(name.drop_last())
    }
}

/// The extension of a path, as `Path::extension` gives it: the text after the last
/// `.` of the file name, where that `.` is not its first character.
pub open spec fn extension(path: Seq<char>) -> Option<Seq<char>> {
    match file_name(path) {
        Some(name) => {
            let k = last_dot(name);
            if k <= 0 {
                None
            } else {
                Some(name.skip(k + 1))
            }
        },
        None => None,
    }
}

/// The extension of `path`, where it has one.
pub fn path_extension(path: &str) -> (r: Option<String>)
    ensures
        match r {
            Some(e) => extension(path@) == Some(e@),
            None => extension(path@) is None,
        },
{
    let segments = split_on(path, '/');
    let ghost segs = segments@.map_values(|w: String| w@);
    let mut k: usize = segments.len();
    assert(segs.take(k as int) =~= segs);
    while k > 0 && (segments[k - 1].as_str().unicode_len() == 0 || is_dot(segments[k - 1].as_str()))
        invariant
            0 <= k <= segments.len(),
            segs == segments@.map_values(|w: String| w@),
            segs == pieces(path@, '/'),
            last_name_segment(segs.take(k as int)) == last_name_segment(segs),
        decreases k,
    {
        assert(segs.take(k as int).drop_last() =~= segs.take(k - 1));
        k = k - 1;
    }
    if k == 0 {
        return None;
    }
    assert(segs.take(k as int).drop_last() =~= segs.take(k - 1));
    let name: &str = segments[k - 1].as_str();
    assert(last_name_segment(segs) == Some(name@));
    let chars = crate::text::chars_of(name);
    if chars.len() == 2 && chars[0] == '.' && chars[1] == '.' {
        assert(name@ =~= seq!['.', '.']);
        return None;
    }
    assert(name@ != seq!['.', '.']);
    let mut d: usize = chars.len();
    assert(name@.take(d as int) =~= name@);
    while d > 0 && chars[d - 1] != '.'
        invariant
            0 <= d <= chars.len(),
            chars@ == name@,
            last_dot(name@.take(d as int)) == last_dot(name@),
        decreases d,
    {
        assert(name@.take(d as int).drop_last() =~= name@.take(d - 1));
        d = d - 1;
    }
    if d == 0 {
        assert(last_dot(name@.take(0)) == -1);
        return None;
    }
    assert(name@.take(d as int).drop_last() =~= name@.take(d - 1));
    assert(last_dot(name@) == d - 1);
    if d == 1 {
        return None;
    }
    Some(crate::text::skip_chars(name, d).to_owned())
}

fn is_dot(s: &str) -> (r: bool)
    ensures
        r == (s@ == seq!['.']),
{
    let cs = crate::text::chars_of(s);
    if cs.len() == 1 && cs[0] == '.' {
        assert(s@ =~= seq!['.']);
        true
    } else {
        false
    }
}

/// Whether a file at `path` is one the configuration asks about: every file where
/// no extensions were given, else those whose extension equals one of them, ASCII
/// letters compared without regard to case.
pub open spec fn extension_matches(config: ConfigExtensions, path: Seq<char>) -> bool {
    match config {
        Some(exts) => match extension(path) {
            Some(e) => is_listed(exts, e),
            None => false,
        },
        None => true,
    }
}

/// `e` equals one of `exts`, ASCII letters compared without regard to case.
pub open spec fn is_listed(exts: Seq<Seq<char>>, e: Seq<char>) -> bool {
    exists|i: int| 0 <= i < exts.len() && eq_ignoring_ascii_case(#[trigger] exts[i], e)
}

/// The extensions a configuration asks for, as sequences of characters.
pub type ConfigExtensions = Option<Seq<Seq<char>>>;

/// Decides whether the file at `path` has an extension that the configuration asks for.
pub fn check_extension(config: &Config, path: &str) -> (r: bool)
    ensures
        r == extension_matches(config.model().extensions, path@),
{
    match &config.extensions {
        Some(extensions) => {
            let ghost exts = extensions@.map_values(|e: String| e@);
            assert(config.model().extensions == Some(exts));
            match path_extension(path) {
                Some(ext) => {
                    let mut i: usize = 0;
                    while i < extensions.len()
                        invariant
                            0 <= i <= extensions.len(),
                            exts == extensions@.map_values(|e: String| e@),
                            extension(path@) == Some(ext@),
                            config.model().extensions == Some(exts),
                            forall|j: int| 0 <= j < i ==> !eq_ignoring_ascii_case(#[trigger] exts[j], ext@),
                        decreases extensions.len() - i,
                    {
                        if eq_ignore_ascii_case(extensions[i].as_str(), ext.as_str()) {
                            assert(eq_ignoring_ascii_case(exts[i as int], ext@));
                            assert(0 <= i < exts.len());
                            assert(exists|j: int|
                                0 <= j < exts.len() && eq_ignoring_ascii_case(
                                    #[trigger] exts[j],
                                    ext@,
                                ));
                            assert(is_listed(exts, ext@));
                            return true;
                        }
                        i = i + 1;
                    }
                    false
                },
                None => false,
            }
        },
        None => true,
    }
}

/// What to do with an entry met while walking the directory tree.
pub enum EntryAction {
    /// Walk into it: a directory, and the walk is recursive.
    Descend,
    /// Consider it: a regular file with an extension that was asked for.
    Keep,
    /// Leave it aside.
    Skip,
}

/// Decides what to do with a directory entry, given whether it is a directory
/// and whether it is a regular file.
pub fn classify_entry(config: &Config, is_dir: bool, is_file: bool, path: &str) -> (r: EntryAction)
    ensures
        r == (if is_dir && config.recursive {
            EntryAction::Descend
        } else if is_file && extension_matches(config.model().extensions, path@) {
            EntryAction::Keep
        } else {
            EntryAction::Skip
        }),
{
    if is_dir && config.recursive {
        EntryAction::Descend
    } else if is_file && check_extension(config, path) {
        EntryAction::Keep
    } else {
        EntryAction::Skip
    }
}


/// Without a list of extensions every path is accepted. With one, a path is
/// accepted exactly when it has an extension, and that extension has the length of
/// one listed extension and equals it character by character, ASCII letters
/// compared without regard to case (so a listed `c` does not admit `main.cpp`).
pub proof fn extension_filter_compares_whole_extensions(exts: Seq<Seq<char>>, path: Seq<char>)
    ensures
        extension_matches(None, path),
        extension_matches(Some(exts), path) <==> (extension(path) is Some && exists|i: int|
            0 <= i < exts.len() && (#[trigger] exts[i]).len() == extension(path)->0.len()
                && forall|j: int|
                0 <= j < exts[i].len() ==> ascii_lower(exts[i][j]) == ascii_lower(
                    extension(path)->0[j],
                )),
{
}


proof fn lemma_last_name_segment(segments: Seq<Seq<char>>)
    ensures
        last_name_segment(segments) matches Some(n) ==> n.len() > 0 && n != seq!['.'] && exists|i: int|
            0 <= i < segments.len() && segments[i] == n,
    decreases segments.len(),
{
    if segments.len() > 0 {
        lemma_last_name_segment(segments.drop_last());
        if let Some(n) = last_name_segment(segments) {
            if segments.last().len() > 0 && segments.last() != seq!['.'] {
                assert(segments[segments.len() - 1] == n);
            } else {
                let i = choose|i: int|
                    0 <= i < segments.drop_last().len() && segments.drop_last()[i] == n;
                assert(segments[i] == n);
            }
        }
    }
}

proof fn lemma_last_dot(name: Seq<char>)
    ensures
        -1 <= last_dot(name) < name.len(),
        last_dot(name) >= 0 ==> name[last_dot(name)] == '.',
        forall|i: int| last_dot(name) < i < name.len() ==> name[i] != '.',
    decreases name.len(),
{
    if name.len() > 0 && name.last() != '.' {
        let rest = name.drop_last();
        lemma_last_dot(rest);
        assert forall|i: int| last_dot(name) < i < name.len() implies name[i] != '.' by {
            if i < rest.len() {
                assert(name[i] == rest[i]);
            }
        }
    }
}

/// The file name of a path is one component: non-empty, free of `/`, and neither
/// `.` nor `..`. The extension is the text after the last `.` of the file name: it
/// holds no `.`, and the name ends with a `.` and the extension, with at least one
/// character before that `.`. A file name with a `.` after its first character
/// always has an extension (possibly empty).
pub proof fn extension_is_text_after_last_dot(path: Seq<char>)
    ensures
        file_name(path) matches Some(n) ==> n.len() > 0 && n != seq!['.'] && n != seq!['.', '.']
            && forall|i: int| 0 <= i < n.len() ==> n[i] != '/',
        extension(path) matches Some(e) ==> file_name(path) matches Some(n) && n.len() >= e.len()
            + 2 && n.skip(n.len() - e.len()) == e && n[n.len() - e.len() - 1] == '.' && forall|
            i: int,
        | 0 <= i < e.len() ==> e[i] != '.',
        file_name(path) matches Some(n) && (exists|k: int| 0 < k < n.len() && n[k] == '.')
            ==> extension(path) is Some,
{
    let segs = pieces(path, '/');
    lemma_last_name_segment(segs);
    pieces_hold_no_separator(path, '/');
    if let Some(n) = file_name(path) {
        let i = choose|i: int| 0 <= i < segs.len() && segs[i] == n;
        assert forall|j: int| 0 <= j < n.len() implies n[j] != '/' by {
            assert(segs[i][j] != '/');
        }
        lemma_last_dot(n);
        let k = last_dot(n);
        if k > 0 {
            let e = n.skip(k + 1);
            assert(n.skip(n.len() - e.len()) =~= e);
        }
        if exists|m: int| 0 < m < n.len() && n[m] == '.' {
            let m = choose|m: int| 0 < m < n.len() && n[m] == '.';
            assert(k >= m);
        }
    }
}

} // verus!
