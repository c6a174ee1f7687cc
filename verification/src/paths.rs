//! File names, on paths that every platform reads alike.
use vstd::prelude::*;

verus! {

/// Whether a character can end a component on some platform: a slash does on all of
/// them, a backslash or the colon of a drive letter on some
pub open spec fn separator(c: char) -> bool {
    c == '/' || c == '\\' || c == ':'
}

/// Whether a text has no separator in it
pub open spec fn plain(text: Seq<char>) -> bool {
    forall|i: int| 0 <= i < text.len() ==> !separator(#[trigger] text[i])
}

/// Whether two slashes or backslashes stand in front, which on some platforms starts
/// the name of a host or a device
pub open spec fn names_host(path: Seq<char>) -> bool {
    &&& path.len() >= 2
    &&& path[0] == '/' || path[0] == '\\'
    &&& path[1] == '/' || path[1] == '\\'
}

/// A path without the slashes at its end, and without the single dots that stand for
/// a component there. Neither has a part in what the path names.
pub open spec fn trimmed(path: Seq<char>) -> Seq<char>
    decreases path.len(),
{
    let len = path.len();
    if len > 0 && path[len - 1] == '/' {
        trimmed(path.drop_last())
    } else if len >= 2 && path[len - 1] == '.' && path[len - 2] == '/' {
        trimmed(path.drop_last())
    } else {
        path
    }
}

/// Where the name behind the last separator starts
pub open spec fn name_start(path: Seq<char>) -> int
    decreases path.len(),
{
    if path.len() == 0 || separator(path.last()) {
        path.len() as int
    } else {
        name_start(path.drop_last())
    }
}

/// The name behind the last separator
pub open spec fn file_name(path: Seq<char>) -> Seq<char> {
    path.skip(name_start(path))
}

/// Whether the name behind the last separator is a component on every platform
pub open spec fn stands_alone(path: Seq<char>) -> bool {
    name_start(path) == 0 || path[name_start(path) - 1] == '/'
}

/// Where what is behind the last slash starts
pub open spec fn slash_end(path: Seq<char>) -> int
    decreases path.len(),
{
    if path.len() == 0 || path.last() == '/' {
        path.len() as int
    } else {
        slash_end(path.drop_last())
    }
}

/// Whether the path names some file on every platform, though not always the same one
///
/// Apart from what is trimmed, its name is neither empty nor a single dot nor two dots.
pub open spec fn has_name(path: Seq<char>) -> bool {
    let name = file_name(trimmed(path));
    &&& !names_host(path)
    &&& name.len() > 0
    &&& name != seq!['.']
    &&& name != seq!['.', '.']
}

/// Whether every platform reads the same extension in the file name, or none
///
/// Where the separator in front of the name is not one on every platform, what is in
/// front of it may belong to the name. That makes no difference if the name has an
/// extension, or if there is no dot behind the last slash but at its very start.
pub open spec fn clear_extension(path: Seq<char>) -> bool {
    ||| stands_alone(path)
    ||| last_dot(file_name(path)) > 0
    ||| last_dot(path.skip(slash_end(path))) <= 0
}

/// Whether the path names a file, and the same extension of it, on every platform
///
/// A name that starts with two dots and has no other is left out: without its extension
/// it would read as two dots.
pub open spec fn names_file(path: Seq<char>) -> bool {
    let name = file_name(trimmed(path));
    &&& has_name(path)
    &&& !(name[0] == '.' && last_dot(name) == 1)
    &&& clear_extension(trimmed(path))
}

/// Whether the path goes up a directory at its end, on every platform
pub open spec fn goes_up(path: Seq<char>) -> bool {
    &&& !names_host(path)
    &&& file_name(trimmed(path)) == seq!['.', '.']
    &&& stands_alone(trimmed(path))
}

/// Where the last dot of a file name stands, or -1 if there is none
pub open spec fn last_dot(name: Seq<char>) -> int
    decreases name.len(),
{
    if name.len() == 0 {
        -1
    } else if name.last() == '.' {
        name.len() - 1
    } else {
        last_dot(name.drop_last())
    }
}

/// A path without the extension of its file name, if it has one. A dot that starts
/// the name belongs to the name.
pub open spec fn without_extension(path: Seq<char>) -> Seq<char> {
    let dot = last_dot(file_name(path));
    if dot > 0 {
        path.take(name_start(path) + dot)
    } else {
        path
    }
}

/// A path with another extension, or with one if it had none
pub open spec fn extended(path: Seq<char>, extension: Seq<char>) -> Seq<char> {
    without_extension(path) + seq!['.'] + extension
}

/// `std::path::Path::with_extension` on a path held as text. Where the path names a
/// file, the extension of the file name is replaced, or added if there was none, and
/// what comes before it stays as it is. If the path had slashes or single dots at its
/// end, which are no part of what it names, it is not stated whether any are left.
/// Whichever file the platform takes the path to name, an extension with a dot in it
/// gives another path. Where the path goes up a directory at its end there is no file
/// name, and it is returned unchanged. Nothing else is claimed: what other paths give
/// depends on the platform, or on how a name that starts with two dots and has no
/// other is taken apart.
#[verifier::external_body]
pub(crate) fn with_extension(path: &str, extension: &str) -> (changed: String)
    requires
        plain(extension@),
        extension@.len() > 0,
    ensures
        names_file(path@) ==> trimmed(changed@) == extended(trimmed(path@), extension@),
        names_file(path@) && trimmed(path@) == path@ ==> changed@ == extended(
            path@,
            extension@,
        ),
        has_name(path@) && extension@.contains('.') ==> changed@ != path@,
        goes_up(path@) ==> changed@ == path@,
{
    std::path::Path::new(path).with_extension(extension).to_string_lossy().into_owned()
}

proof fn lemma_name_start(path: Seq<char>)
    ensures
        0 <= name_start(path) <= path.len(),
        forall|i: int| name_start(path) <= i < path.len() ==> !separator(#[trigger] path[i]),
    decreases path.len(),
{
    if path.len() > 0 && !separator(path.last()) {
        lemma_name_start(path.drop_last());
        assert forall|i: int| name_start(path) <= i < path.len() implies !separator(
            #[trigger] path[i],
        ) by {
            if i < path.len() - 1 {
                assert(path[i] == path.drop_last()[i]);
            }
        }
    }
}

proof fn lemma_last_dot(name: Seq<char>)
    ensures
        -1 <= last_dot(name) < name.len(),
        last_dot(name) >= 0 ==> name[last_dot(name)] == '.',
        forall|i: int| last_dot(name) < i < name.len() ==> name[i] != '.',
    decreases name.len(),
{
    if name.len() > 0 && name.last() != '.' {
        lemma_last_dot(name.drop_last());
        assert forall|i: int| last_dot(name) < i < name.len() implies name[i] != '.' by {
            if i < name.len() - 1 {
                assert(name[i] == name.drop_last()[i]);
            }
        }
    }
}

/// Text without a separator, put after a path, does not move where the name starts
proof fn lemma_name_start_extends(path: Seq<char>, more: Seq<char>)
    requires
        plain(more),
    ensures
        name_start(path + more) == name_start(path),
    decreases more.len(),
{
    if more.len() == 0 {
        assert(path + more =~= path);
    } else {
        assert(more.last() == more[more.len() - 1]);
        assert((path + more).drop_last() =~= path + more.drop_last());
        assert forall|i: int| 0 <= i < more.drop_last().len() implies !separator(
            #[trigger] more.drop_last()[i],
        ) by {
            assert(more[i] == more.drop_last()[i]);
        }
        lemma_name_start_extends(path, more.drop_last());
    }
}

/// Taking characters off the name does not move where it starts
proof fn lemma_name_start_shortens(path: Seq<char>, end: int)
    requires
        name_start(path) <= end <= path.len(),
    ensures
        name_start(path.take(end)) == name_start(path),
{
    lemma_name_start(path);
    let more = path.skip(end);
    assert(path =~= path.take(end) + more);
    assert forall|i: int| 0 <= i < more.len() implies !separator(#[trigger] more[i]) by {
        assert(more[i] == path[end + i]);
    }
    lemma_name_start_extends(path.take(end), more);
}

/// The name behind the last separator has none in it, and is a name by itself
proof fn lemma_file_name(path: Seq<char>)
    ensures
        file_name(path).len() == path.len() - name_start(path),
        name_start(file_name(path)) == 0,
        file_name(file_name(path)) == file_name(path),
{
    lemma_name_start(path);
    let name = file_name(path);
    let start = name_start(path);
    assert forall|i: int| 0 <= i < name.len() implies !separator(#[trigger] name[i]) by {
        assert(name[i] == path[start + i]);
    }
    let nothing = Seq::<char>::empty();
    lemma_name_start_extends(nothing, name);
    assert(nothing + name =~= name);
    assert(name.skip(0) =~= name);
}

/// Another extension leaves everything in front of the file name as it is
proof fn lemma_extended_start(path: Seq<char>, extension: Seq<char>)
    requires
        plain(extension),
    ensures
        name_start(extended(path, extension)) == name_start(path),
{
    let base = without_extension(path);
    let suffix = seq!['.'] + extension;
    lemma_name_start(path);
    lemma_file_name(path);
    lemma_last_dot(file_name(path));
    if last_dot(file_name(path)) > 0 {
        lemma_name_start_shortens(path, name_start(path) + last_dot(file_name(path)));
    }
    assert forall|i: int| 0 <= i < suffix.len() implies !separator(#[trigger] suffix[i]) by {
        if i > 0 {
            assert(suffix[i] == extension[i - 1]);
        }
    }
    lemma_name_start_extends(base, suffix);
    assert(extended(path, extension) =~= base + suffix);
}

/// An extension with a dot in it always gives another path
proof fn lemma_extended_differs(path: Seq<char>, extension: Seq<char>, at: int)
    requires
        0 <= at < extension.len(),
        extension[at] == '.',
    ensures
        extended(path, extension) != path,
{
    let start = name_start(path);
    let name = file_name(path);
    let dot = last_dot(name);
    let base = without_extension(path);
    let changed = extended(path, extension);
    lemma_name_start(path);
    lemma_file_name(path);
    lemma_last_dot(name);
    assert(changed.len() == base.len() + 1 + extension.len());
    if dot > 0 && changed.len() == path.len() {
        assert(base.len() == start + dot);
        assert(changed[start + dot + 1 + at] == '.');
        assert(name[dot + 1 + at] == path[start + dot + 1 + at]);
        assert(name[dot + 1 + at] != '.');
    }
}

/// Another extension leaves everything in front of the file name as it is, and the
/// name up to its extension. One with a dot in it always gives another path.
pub proof fn lemma_changed_extension(path: Seq<char>, extension: Seq<char>)
    requires
        plain(extension),
    ensures
        ({
            let changed = extended(path, extension);
            &&& name_start(changed) == name_start(path)
            &&& changed.take(name_start(changed)) == path.take(name_start(path))
            &&& file_name(changed) == extended(file_name(path), extension)
            &&& extension.contains('.') ==> changed != path
        }),
{
    let start = name_start(path);
    let name = file_name(path);
    let changed = extended(path, extension);
    lemma_name_start(path);
    lemma_file_name(path);
    lemma_last_dot(name);
    lemma_extended_start(path, extension);
    assert(changed.take(start) =~= path.take(start));
    assert(without_extension(path).skip(start) =~= without_extension(name));
    assert(changed.skip(start) =~= without_extension(path).skip(start) + seq!['.'] + extension);
    if extension.contains('.') {
        let at = choose|at: int| 0 <= at < extension.len() && extension[at] == '.';
        lemma_extended_differs(path, extension, at);
    }
}

/// Whether a text is a directory to put names behind: nothing at all, or one that ends
/// in a slash and names no host
pub open spec fn directory(dir: Seq<char>) -> bool {
    &&& dir.len() == 0 || dir.last() == '/'
    &&& !names_host(dir)
}

proof fn lemma_in_directory(dir: Seq<char>, name: Seq<char>)
    requires
        directory(dir),
        plain(name),
        name.len() > 0,
        name != seq!['.'],
    ensures
        !names_host(dir + name),
        trimmed(dir + name) == dir + name,
        name_start(dir + name) == dir.len(),
        file_name(dir + name) == name,
        stands_alone(dir + name),
{
    let path = dir + name;
    lemma_name_start_extends(dir, name);
    assert(name_start(dir) == dir.len());
    assert(file_name(path) =~= name);
    assert(!separator(name[0]) && !separator(name[name.len() - 1]));
    assert(path[path.len() - 1] == name[name.len() - 1]);
    if name.len() >= 2 {
        assert(path[path.len() - 2] == name[name.len() - 2]);
        assert(!separator(name[name.len() - 2]));
    } else {
        assert(name =~= seq![name[0]]);
    }
    assert(trimmed(path) == path);
    if dir.len() >= 1 {
        assert(path[0] == dir[0]);
        assert(path[dir.len() - 1] == dir.last());
    }
    if dir.len() >= 2 {
        assert(path[1] == dir[1]);
    }
}

/// The last dot of a name is the one with no other behind it
proof fn lemma_last_dot_is(name: Seq<char>, at: int)
    requires
        -1 <= at < name.len(),
        at >= 0 ==> name[at] == '.',
        forall|i: int| at < i < name.len() ==> name[i] != '.',
    ensures
        last_dot(name) == at,
{
    lemma_last_dot(name);
}

/// In any directory, a name with an extension behind its last dot is a file, and another
/// extension takes the place of that one
pub proof fn lemma_an_extension_is_replaced(
    dir: Seq<char>,
    stem: Seq<char>,
    extension: Seq<char>,
    other: Seq<char>,
)
    requires
        directory(dir),
        plain(stem),
        stem.len() > 0,
        stem[0] != '.',
        plain(extension),
        !extension.contains('.'),
    ensures
        ({
            let path = dir + stem + seq!['.'] + extension;
            &&& names_file(path)
            &&& trimmed(path) == path
            &&& extended(path, other) == dir + stem + seq!['.'] + other
        }),
{
    let name = stem + seq!['.'] + extension;
    let path = dir + stem + seq!['.'] + extension;
    assert(path =~= dir + name);
    assert forall|i: int| 0 <= i < name.len() implies !separator(#[trigger] name[i]) by {
        if i < stem.len() {
            assert(name[i] == stem[i]);
        } else if i > stem.len() {
            assert(name[i] == extension[i - stem.len() - 1]);
        }
    }
    assert(name[0] == stem[0]);
    lemma_in_directory(dir, name);
    assert forall|i: int| stem.len() < i < name.len() implies name[i] != '.' by {
        assert(name[i] == extension[i - stem.len() - 1]);
    }
    lemma_last_dot_is(name, stem.len() as int);
    assert(without_extension(path) =~= dir + stem);
}

/// In any directory, a name without a dot behind its first character is a file, and an
/// extension is added to it
pub proof fn lemma_an_extension_is_added(dir: Seq<char>, name: Seq<char>, other: Seq<char>)
    requires
        directory(dir),
        plain(name),
        name.len() > 0,
        name != seq!['.'],
        forall|i: int| 0 < i < name.len() ==> name[i] != '.',
    ensures
        names_file(dir + name),
        trimmed(dir + name) == dir + name,
        extended(dir + name, other) == dir + name + seq!['.'] + other,
{
    lemma_in_directory(dir, name);
    lemma_last_dot_is(
        name,
        if name[0] == '.' {
            0
        } else {
            -1
        },
    );
}

} // verus!
