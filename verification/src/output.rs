//! Where results go, and how many workers look for them.
use vstd::prelude::*;
use vstd::string::StringExecFns;

verus! {

/// The end of the closest-candidate file's name.
pub open spec fn closest_ending() -> Seq<char> {
    "-closest.json"@
}

/// `std::path::is_separator`. What it says of a character depends on the
/// platform and is left unsaid.
pub assume_specification[ std::path::is_separator ](c: char) -> bool
;

/// Whether a backslash is no separator here, so that only a slash is one and no
/// other character has a meaning of its own.
pub open spec fn only_slash_separates() -> bool {
    call_ensures(std::path::is_separator, ('\\',), false)
}

/// Whether a backslash separates the steps of a path on this platform.
pub fn backslash_separates() -> (r: bool)
    ensures
        !r ==> only_slash_separates(),
{
    std::path::is_separator('\\')
}

/// Whether a path is read alike on every platform, or on one where only a slash
/// separates: otherwise it has no backslash and no drive mark, and does not begin
/// with two slashes.
pub open spec fn plain_path(path: Seq<char>, slash_only: bool) -> bool {
    if slash_only {
        only_slash_separates()
    } else {
        &&& forall|i: int|
            0 <= i < path.len() ==> (#[trigger] path[i]) != '\\' && path[i] != ':'
        &&& !(path.len() >= 2 && path[0] == '/' && path[1] == '/')
    }
}

/// Whether a character can stand in a file name: on every platform, or where
/// only a slash separates.
pub open spec fn plain_char(c: char, slash_only: bool) -> bool {
    c != '/' && (slash_only || (c != '\\' && c != ':'))
}

/// Whether a text is a file name: not empty, without a separator or a drive
/// mark, and neither of the two that stand for directories.
pub open spec fn is_file_name(text: Seq<char>, slash_only: bool) -> bool {
    &&& text.len() > 0
    &&& text != seq!['.']
    &&& text != seq!['.', '.']
    &&& forall|i: int| 0 <= i < text.len() ==> plain_char(#[trigger] text[i], slash_only)
}

/// A path without the steps at its end that lead nowhere: those that are empty,
/// and those that are a dot and not the first.
pub open spec fn settled(path: Seq<char>) -> Seq<char>
    decreases path.len(),
{
    if path.len() > 0 && path.last() == '/' {
        settled(path.drop_last())
    } else if path.len() >= 2 && path.last() == '.' && path[path.len() - 2] == '/' {
        settled(path.drop_last())
    } else {
        path
    }
}

/// How many of the first `at` characters stand up to and with the last slash.
pub open spec fn slash_up_to(path: Seq<char>, at: nat) -> nat
    decreases at,
{
    if at == 0 || path[at - 1] == '/' {
        at
    } else {
        slash_up_to(path, (at - 1) as nat)
    }
}

/// The last step of a path.
pub open spec fn last_step(path: Seq<char>) -> Seq<char> {
    let end = settled(path);
    end.skip(slash_up_to(end, end.len()) as int)
}

/// The name of the file that a path leads to. The empty path, the root, a dot
/// alone and a path that goes up last lead to none.
pub open spec fn file_name_of(path: Seq<char>) -> Option<Seq<char>> {
    let step = last_step(path);
    if step.len() == 0 || step == seq!['.'] || step == seq!['.', '.'] {
        None
    } else {
        Some(step)
    }
}

/// The directory of the file that a path leads to, as it is written there but for
/// steps at its end that lead nowhere. The empty text is the root; `None` stands
/// for a name alone.
pub open spec fn directory_of(path: Seq<char>) -> Option<Seq<char>> {
    let end = settled(path);
    let slash = slash_up_to(end, end.len());
    if slash == 0 {
        None
    } else {
        Some(settled(end.take(slash - 1)))
    }
}

/// The last dot up to `at` that does not begin the name, or zero if there is
/// none.
pub open spec fn dot_up_to(name: Seq<char>, at: nat) -> nat
    decreases at,
{
    if at == 0 || name[at as int] == '.' {
        at
    } else {
        dot_up_to(name, (at - 1) as nat)
    }
}

/// A file name without its extension: what stands before its last dot, or all of
/// it where there is none but at its beginning.
pub open spec fn stem_of(name: Seq<char>) -> Seq<char> {
    let dot = dot_up_to(name, (name.len() - 1) as nat);
    if dot == 0 {
        name
    } else {
        name.take(dot as int)
    }
}

/// A name in a directory.
pub open spec fn placed(directory: Option<Seq<char>>, separator: char, name: Seq<char>) -> Seq<
    char,
> {
    match directory {
        None => name,
        Some(d) => d + seq![if d.len() == 0 {
            '/'
        } else {
            separator
        }] + name,
    }
}

/// A name behind a path that leads to no file.
pub open spec fn put_behind(path: Seq<char>, separator: char, name: Seq<char>) -> Seq<char> {
    if path.len() == 0 || path.last() == '/' {
        path + name
    } else {
        path + seq![separator] + name
    }
}

/// A path with this name in place of the file's own, or behind it where it leads
/// to no file.
pub open spec fn renamed(path: Seq<char>, separator: char, name: Seq<char>) -> Seq<char> {
    match file_name_of(path) {
        Some(_) => placed(directory_of(path), separator, name),
        None => put_behind(path, separator, name),
    }
}

/// Whether a path was renamed, with the platform's separator: a slash where only
/// that separates, or a backslash otherwise.
pub open spec fn is_renamed(
    path: Seq<char>,
    name: Seq<char>,
    slash_only: bool,
    r: Seq<char>,
) -> bool {
    r == renamed(path, '/', name) || (!slash_only && r == renamed(path, '\\', name))
}

/// Whether there is a text, and it is this one, or there is none of either.
pub open spec fn same_text(found: Option<String>, text: Option<Seq<char>>) -> bool {
    match (found, text) {
        (None, None) => true,
        (Some(string), Some(t)) => string@ == t,
        _ => false,
    }
}

/// The stem of the file that a path leads to.
pub open spec fn path_stem_of(path: Seq<char>) -> Option<Seq<char>> {
    match file_name_of(path) {
        None => None,
        Some(name) => Some(stem_of(name)),
    }
}

/// `std::path::Path::file_stem`, as text. Of the last step of a path, empty steps
/// and dots at the end left out, it is what stands before the last dot, or all of
/// it where there is no dot but at its beginning. The empty path, the root, a dot
/// alone and a path that goes up last have none. Where a backslash separates,
/// what it is of a path with a backslash, a drive mark or two slashes at the
/// beginning is left unsaid.
#[verifier::external_body]
fn path_stem(path: &str) -> (r: Option<String>)
    ensures
        forall|slash_only: bool| #[trigger]
            plain_path(path@, slash_only) ==> same_text(r, path_stem_of(path@)),
{
    std::path::Path::new(path).file_stem().and_then(|stem| stem.to_str()).map(|s| s.to_owned())
}

/// `std::path::Path::with_file_name`, as text. A file name takes the place of the
/// last step of a path, empty steps and dots at the end left out before and behind
/// it; the directory stays as it is written, and the platform's separator joins
/// the two. A path that leads to no file has the name put behind it. Where a
/// backslash separates, what becomes of a path with a backslash, a drive mark or
/// two slashes at the beginning is left unsaid.
#[verifier::external_body]
fn replace_file_name(path: &str, name: &str) -> (r: String)
    ensures
        forall|slash_only: bool| #[trigger]
            plain_path(path@, slash_only) && is_file_name(name@, slash_only) ==> is_renamed(
                path@,
                name@,
                slash_only,
                r@,
            ),
{
    std::path::Path::new(path).with_file_name(name).to_string_lossy().into_owned()
}

/// The name of the closest-candidate file next to an output file with the
/// given stem.
pub fn closest_file_name(stem: Option<String>) -> (r: String)
    ensures
        r@ == (match stem {
            Some(name) => name@,
            None => "closest"@,
        }) + closest_ending(),
{
    let mut name: String = match stem {
        Some(name) => name,
        None => "closest".to_owned(),
    };
    name.append("-closest.json");
    name
}

/// The name of the closest-candidate file next to an output file: that of the
/// output file without its extension, with an ending of its own.
pub open spec fn closest_name(out: Seq<char>) -> Seq<char> {
    (match path_stem_of(out) {
        Some(stem) => stem,
        None => "closest"@,
    }) + closest_ending()
}

/// Whether `r` leads to the closest-candidate file next to an output file,
/// wherever the path is read alike.
pub open spec fn is_closest_path(out: Seq<char>, r: Seq<char>) -> bool {
    forall|slash_only: bool| #[trigger]
        plain_path(out, slash_only) ==> is_renamed(out, closest_name(out), slash_only, r)
}

/// The closest-candidate file next to an output file: in the same directory,
/// named after the output file without its extension. Next to a path that leads
/// to no file it has a name of its own.
pub fn closest_output_path(out: &str) -> (r: String)
    ensures
        is_closest_path(out@, r@),
{
    let stem: Option<String> = path_stem(out);
    let name: String = closest_file_name(stem);
    proof {
        assert forall|slash_only: bool| #[trigger] plain_path(out@, slash_only) implies name@
            == closest_name(out@) && is_file_name(name@, slash_only) by {
            lemma_closest_name(out@, slash_only);
        }
    }
    replace_file_name(out, name.as_str())
}

/// A path without the steps at its end that lead nowhere is where the path
/// begins, and has no such steps.
proof fn lemma_settled(path: Seq<char>)
    ensures
        settled(path).is_prefix_of(path),
        settled(settled(path)) == settled(path),
    decreases path.len(),
{
    if (path.len() > 0 && path.last() == '/') || (path.len() >= 2 && path.last() == '.'
        && path[path.len() - 2] == '/') {
        lemma_settled(path.drop_last());
    }
}

/// Behind the last slash there is no other.
proof fn lemma_slash_up_to(path: Seq<char>, at: nat)
    requires
        at <= path.len(),
    ensures
        slash_up_to(path, at) <= at,
        forall|i: int| slash_up_to(path, at) <= i < at ==> (#[trigger] path[i]) != '/',
        slash_up_to(path, at) > 0 ==> path[slash_up_to(path, at) - 1] == '/',
    decreases at,
{
    if at > 0 && path[at - 1] != '/' {
        lemma_slash_up_to(path, (at - 1) as nat);
    }
}

/// The last step of a path is part of it and has no slash.
proof fn lemma_last_step(path: Seq<char>)
    ensures
        forall|i: int|
            0 <= i < last_step(path).len() ==> (#[trigger] last_step(path)[i]) != '/'
                && path.contains(last_step(path)[i]),
{
    let end = settled(path);
    let slash = slash_up_to(end, end.len());
    lemma_settled(path);
    lemma_slash_up_to(end, end.len());
    assert forall|i: int| 0 <= i < last_step(path).len() implies (#[trigger] last_step(path)[i])
        != '/' && path.contains(last_step(path)[i]) by {
        assert(last_step(path)[i] == end[slash + i]);
        assert(end[slash + i] == path[slash + i]);
    }
}

/// A file that takes the place of another has the name that it was given, and is
/// in the same directory.
pub proof fn law_renamed_file_stays_in_place(path: Seq<char>, name: Seq<char>)
    requires
        file_name_of(path) is Some,
        is_file_name(name, true),
    ensures
        file_name_of(renamed(path, '/', name)) == Some(name),
        directory_of(renamed(path, '/', name)) == directory_of(path),
{
    let directory = directory_of(path);
    let r = renamed(path, '/', name);
    let head = (r.len() - name.len()) as nat;
    assert(r.skip(head as int) =~= name);
    assert(r.last() == name.last());
    assert(r.last() != '/');
    if name.len() == 1 {
        assert(name =~= seq![name[0]]);
    } else {
        assert(r[r.len() - 2] == name[name.len() - 2]);
    }
    assert(settled(r) == r);
    lemma_slash_up_to(r, r.len());
    let slash = slash_up_to(r, r.len());
    if slash > head {
        assert(r[slash - 1] == name[slash - 1 - head]);
    }
    match directory {
        None => {
            assert(head == 0);
        },
        Some(d) => {
            assert(r[head - 1] == '/');
            if slash < head {
                assert(r[head - 1] != '/');
            }
            assert(r.take(head - 1) =~= d);
            lemma_settled(settled(path).take(slash_up_to(settled(path), settled(path).len()) - 1));
        },
    }
}

/// The closest-candidate file is in the directory of the output file and is
/// another file, so it never takes the place of the output file.
pub proof fn law_closest_file_is_another(out: Seq<char>)
    requires
        file_name_of(out) is Some,
    ensures
        file_name_of(renamed(out, '/', closest_name(out))) == Some(closest_name(out)),
        directory_of(renamed(out, '/', closest_name(out))) == directory_of(out),
        file_name_of(out) != Some(closest_name(out)),
{
    let name = file_name_of(out)->0;
    lemma_last_step(out);
    lemma_stem_is_part(name);
    let stem = stem_of(name);
    assert forall|i: int| 0 <= i < stem.len() implies plain_char(#[trigger] stem[i], true) by {
        assert(stem[i] == name[i]);
        assert(name[i] == last_step(out)[i]);
    }
    lemma_longer_name(stem, true);
    law_renamed_file_stays_in_place(out, closest_name(out));
    reveal_strlit("-closest.json");
    if stem.len() < name.len() {
        assert(closest_name(out)[stem.len() as int] == '-');
    }
}

/// The closest-candidate file has a file name.
proof fn lemma_closest_name(out: Seq<char>, slash_only: bool)
    requires
        plain_path(out, slash_only),
    ensures
        is_file_name(closest_name(out), slash_only),
{
    match file_name_of(out) {
        Some(name) => {
            lemma_last_step(out);
            lemma_stem_is_part(name);
            assert forall|i: int| 0 <= i < name.len() implies plain_char(
                #[trigger] name[i],
                slash_only,
            ) by {
                assert(out.contains(name[i]));
            }
            let stem = stem_of(name);
            assert forall|i: int| 0 <= i < stem.len() implies plain_char(
                #[trigger] stem[i],
                slash_only,
            ) by {
                assert(stem[i] == name[i]);
                assert(plain_char(name[i], slash_only));
            }
            lemma_longer_name(stem, slash_only);
        },
        None => {
            reveal_strlit("closest");
            lemma_longer_name("closest"@, slash_only);
        },
    }
}

/// The stem of a name is where the name begins, and not empty.
proof fn lemma_stem_is_part(name: Seq<char>)
    requires
        name.len() > 0,
    ensures
        0 < stem_of(name).len() <= name.len(),
        stem_of(name) == name.take(stem_of(name).len() as int),
        stem_of(name).len() < name.len() ==> name[stem_of(name).len() as int] == '.',
{
    lemma_dot_is_within(name, (name.len() - 1) as nat);
    assert(name.take(name.len() as int) =~= name);
}

/// The dot that ends a stem stands within the name.
proof fn lemma_dot_is_within(name: Seq<char>, at: nat)
    ensures
        dot_up_to(name, at) <= at,
        dot_up_to(name, at) > 0 ==> name[dot_up_to(name, at) as int] == '.',
    decreases at,
{
    if at > 0 && name[at as int] != '.' {
        lemma_dot_is_within(name, (at - 1) as nat);
    }
}

/// A file name that begins with plain characters and has the ending of the
/// closest-candidate file is one.
proof fn lemma_longer_name(stem: Seq<char>, slash_only: bool)
    requires
        forall|i: int| 0 <= i < stem.len() ==> plain_char(#[trigger] stem[i], slash_only),
    ensures
        is_file_name(stem + closest_ending(), slash_only),
{
    reveal_strlit("-closest.json");
    let name = stem + closest_ending();
    assert(name.len() > 2);
    assert(seq!['.'].len() == 1 && seq!['.', '.'].len() == 2);
    assert forall|i: int| 0 <= i < name.len() implies plain_char(
        #[trigger] name[i],
        slash_only,
    ) by {
        if i < stem.len() {
            assert(name[i] == stem[i]);
        } else {
            assert(name[i] == closest_ending()[i - stem.len()]);
        }
    }
}

/// How hits are written.
#[derive(Clone, Copy, Debug, PartialEq, Eq, Structural)]
pub enum OutFmt {
    Json,
    Txt,
}

/// Whether the output file is added to. JSON lines always are.
pub fn appends(format: OutFmt, append: bool) -> (r: bool)
    ensures
        r == (append || format == OutFmt::Json),
{
    append || format == OutFmt::Json
}

/// How many workers search: one on a GPU; on the CPU as many as were asked for
/// or as there are processors, and never none.
pub fn worker_count(on_gpu: bool, requested: Option<usize>, processors: usize) -> (r: usize)
    ensures
        r == (if on_gpu {
            1
        } else {
            let wanted = match requested {
                Some(count) => count,
                None => processors,
            };
            if wanted == 0 {
                1
            } else {
                wanted
            }
        }),
{
    if on_gpu {
        return 1;
    }
    let wanted: usize = match requested {
        Some(count) => count,
        None => processors,
    };
    if wanted == 0 {
        1
    } else {
        wanted
    }
}

}
