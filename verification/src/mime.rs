//! Content-Type resolution from a file extension.

use crate::text;
use vstd::prelude::*;
use vstd::slice::slice_subrange;

verus! {

/// The media type registered for a lower-case file extension, as the
/// `new_mime_guess` crate has it.
pub uninterp spec fn guessed_type(extension: Seq<char>) -> Option<Seq<char>>;

/// `new_mime_guess::from_ext(extension).first_raw()`: the first media type
/// that the crate's table has for the extension, if any. It is a function of
/// the extension, named by [`guessed_type`].
#[verifier::external_body]
fn guess_type(extension: &str) -> (res: Option<&'static str>)
    ensures
        res is Some <==> guessed_type(extension@) is Some,
        res matches Some(found) ==> guessed_type(extension@) == Some(found@),
{
    new_mime_guess::from_ext(extension).first_raw()
}

/// The last segment of a path that is neither empty nor `.`, which names the
/// file, if there is one.
pub open spec fn last_name(segments: Seq<Seq<char>>) -> Option<Seq<char>>
    decreases segments.len(),
{
    if segments.len() == 0 {
        None
    } else if segments.last().len() == 0 || segments.last() == seq!['.'] {
        last_name(segments.drop_last())
    } else {
        Some(segments.last())
    }
}

/// The index of the last `c` in `s`, or -1 when there is none.
pub open spec fn last_position(s: Seq<char>, c: char) -> int
    decreases s.len(),
{
    if s.len() == 0 {
        -1
    } else if s.last() == c {
        s.len() - 1
    } else {
        last_position(s.drop_last(), c)
    }
}

/// The part of a file name after its last dot. A name that is `..`, has no
/// dot but a leading one, or ends in a dot has no extension.
pub open spec fn name_extension(name: Seq<char>) -> Option<Seq<char>> {
    let dot = last_position(name, '.');
    if name == seq!['.', '.'] || dot <= 0 || dot == name.len() - 1 {
        None
    } else {
        Some(name.skip(dot + 1))
    }
}

/// The extension of the final component of a path.
pub open spec fn path_extension(path: Seq<char>) -> Option<Seq<char>> {
    match last_name(text::pieces(path, '/')) {
        Some(name) => name_extension(name),
        None => None,
    }
}

/// `s` without one leading dot.
pub open spec fn without_dot(s: Seq<char>) -> Seq<char> {
    if s.len() > 0 && s[0] == '.' {
        s.skip(1)
    } else {
        s
    }
}

/// The value of the first override for an extension, if there is one. Keys
/// match without regard to ASCII case, with or without their leading dot.
pub open spec fn override_for(
    overrides: Seq<(Seq<char>, Seq<char>)>,
    extension: Seq<char>,
) -> Option<Seq<char>>
    decreases overrides.len(),
{
    if overrides.len() == 0 {
        None
    } else if text::lower_all(without_dot(overrides[0].0)) == text::lower_all(extension) {
        Some(overrides[0].1)
    } else {
        override_for(overrides.skip(1), extension)
    }
}

/// The content type for a path, given what is registered for its extension.
pub open spec fn content_type_given(
    path: Seq<char>,
    overrides: Seq<(Seq<char>, Seq<char>)>,
    default_content_type: Seq<char>,
    registered: Option<Seq<char>>,
) -> Seq<char> {
    match path_extension(path) {
        None => default_content_type,
        Some(extension) => match override_for(overrides, extension) {
            Some(value) => value,
            None => match registered {
                Some(found) => found,
                None => default_content_type,
            },
        },
    }
}

/// The content type for a path.
pub open spec fn content_type(
    path: Seq<char>,
    overrides: Seq<(Seq<char>, Seq<char>)>,
    default_content_type: Seq<char>,
) -> Seq<char> {
    content_type_given(
        path,
        overrides,
        default_content_type,
        match path_extension(path) {
            Some(extension) => guessed_type(text::lower_all(extension)),
            None => None,
        },
    )
}

/// The content type for a file: the first override for its extension, else
/// what is registered for the extension, else the default.
pub fn content_type_for<'a>(
    path: &str,
    overrides: &'a [(String, String)],
    default_content_type: &'a str,
) -> (res: &'a str)
    ensures
        res@ == content_type(path@, overrides.deep_view(), default_content_type@),
{
    let extension = match extract_extension(path) {
        Some(extension) => extension,
        None => return default_content_type,
    };
    let lower = text::string_of(text::to_lower(extension.as_slice()).as_slice());
    let registered = guess_type(lower.as_str());
    choose_content_type(extension.as_slice(), overrides, default_content_type, registered)
}

/// Chooses the content type for an extension, given what is registered for it.
pub fn choose_content_type<'a>(
    extension: &[char],
    overrides: &'a [(String, String)],
    default_content_type: &'a str,
    registered: Option<&'a str>,
) -> (res: &'a str)
    ensures
        res@ == match override_for(overrides.deep_view(), extension@) {
            Some(value) => value,
            None => match registered {
                Some(found) => found@,
                None => default_content_type@,
            },
        },
{
    let ghost views = overrides.deep_view();
    let mut i: usize = 0;
    assert(views.skip(0) =~= views);
    while i < overrides.len()
        invariant
            0 <= i <= overrides.len(),
            views == overrides.deep_view(),
            override_for(views, extension@) == override_for(views.skip(i as int), extension@),
        decreases overrides.len() - i,
    {
        let key = text::chars(overrides[i].0.as_str());
        let bare = strip_dot(key.as_slice());
        proof {
            assert(views.skip(i as int)[0] == (overrides@[i as int].0@, overrides@[i as int].1@));
            assert(views.skip(i as int).skip(1) =~= views.skip(i + 1));
        }
        if text::same_ignoring_case(bare, extension) {
            return overrides[i].1.as_str();
        }
        i += 1;
    }
    match registered {
        Some(found) => found,
        None => default_content_type,
    }
}

fn strip_dot(key: &[char]) -> (res: &[char])
    ensures
        res@ == without_dot(key@),
{
    if key.len() > 0 && key[0] == '.' {
        slice_subrange(key, 1, key.len())
    } else {
        key
    }
}

/// Returns the file extension of the final path component, or `None` when
/// there isn't one: no `.`, a leading-dot dotfile with no other `.` (e.g.
/// `.gitignore`), or a trailing-dot name like `weird.`.
pub fn extract_extension(path: &str) -> (res: Option<Vec<char>>)
    ensures
        res is Some <==> path_extension(path@) is Some,
        res matches Some(extension) ==> path_extension(path@) == Some(extension@),
{
    let cs = text::chars(path);
    let segments = text::split(cs.as_slice(), '/');
    let ghost all = text::pieces(path@, '/');
    let mut n: usize = segments.len();
    assert(all.take(n as int) =~= all);
    while n > 0
        invariant
            0 <= n <= segments.len(),
            segments@.len() == all.len(),
            all == text::pieces(path@, '/'),
            forall|j: int| 0 <= j < all.len() ==> (#[trigger] segments@[j])@ == all[j],
            last_name(all) == last_name(all.take(n as int)),
        decreases n,
    {
        let name = segments[n - 1];
        proof {
            assert(all.take(n as int).last() == name@);
            assert(all.take(n as int).drop_last() =~= all.take(n - 1));
        }
        if name.len() == 0 || (name.len() == 1 && name[0] == '.') {
            assert(name@.len() == 1 ==> name@ =~= seq!['.']);
            n -= 1;
        } else {
            return extension_of_name(name);
        }
    }
    None
}

fn extension_of_name(name: &[char]) -> (res: Option<Vec<char>>)
    ensures
        res is Some <==> name_extension(name@) is Some,
        res matches Some(extension) ==> name_extension(name@) == Some(extension@),
{
    if name.len() == 2 && name[0] == '.' && name[1] == '.' {
        assert(name@ =~= seq!['.', '.']);
        return None;
    }
    let mut n: usize = name.len();
    assert(name@.take(n as int) =~= name@);
    while n > 0
        invariant
            0 <= n <= name.len(),
            last_position(name@, '.') == last_position(name@.take(n as int), '.'),
            name@ != seq!['.', '.'],
        decreases n,
    {
        proof {
            assert(name@.take(n as int).last() == name@[n - 1]);
            assert(name@.take(n as int).drop_last() =~= name@.take(n - 1));
        }
        if name[n - 1] == '.' {
            if n == 1 || n == name.len() {
                return None;
            }
            let tail = slice_subrange(name, n, name.len());
            assert(tail@ =~= name@.skip(n as int));
            return Some(vstd::slice::slice_to_vec(tail));
        }
        n -= 1;
    }
    None
}

proof fn lemma_override_ignores_case(
    overrides: Seq<(Seq<char>, Seq<char>)>,
    a: Seq<char>,
    b: Seq<char>,
)
    requires
        text::lower_all(a) == text::lower_all(b),
    ensures
        override_for(overrides, a) == override_for(overrides, b),
    decreases overrides.len(),
{
    if overrides.len() > 0 {
        lemma_override_ignores_case(overrides.skip(1), a, b);
    }
}

/// Two paths whose extensions differ in ASCII case alone have the same content
/// type.
pub proof fn law_extension_case_is_ignored(
    path_a: Seq<char>,
    path_b: Seq<char>,
    overrides: Seq<(Seq<char>, Seq<char>)>,
    default_content_type: Seq<char>,
)
    requires
        path_extension(path_a) is Some,
        path_extension(path_b) is Some,
        text::lower_all(path_extension(path_a)->0) == text::lower_all(path_extension(path_b)->0),
    ensures
        content_type(path_a, overrides, default_content_type) == content_type(
            path_b,
            overrides,
            default_content_type,
        ),
{
    lemma_override_ignores_case(
        overrides,
        path_extension(path_a)->0,
        path_extension(path_b)->0,
    );
}

/// A path without an extension has the default content type, whatever the
/// overrides say.
pub proof fn law_no_extension_means_default(
    path: Seq<char>,
    overrides: Seq<(Seq<char>, Seq<char>)>,
    default_content_type: Seq<char>,
)
    requires
        path_extension(path) is None,
    ensures
        content_type(path, overrides, default_content_type) == default_content_type,
{
}

proof fn lemma_last_position(s: Seq<char>, c: char, k: int)
    requires
        0 <= k < s.len(),
        s[k] == c,
        forall|i: int| k < i < s.len() ==> #[trigger] s[i] != c,
    ensures
        last_position(s, c) == k,
    decreases s.len(),
{
    if k < s.len() - 1 {
        assert(s[s.len() - 1] != c);
        let t = s.drop_last();
        assert forall|i: int| k < i < t.len() implies #[trigger] t[i] != c by {
            assert(t[i] == s[i]);
        }
        lemma_last_position(t, c, k);
    }
}

proof fn lemma_no_position(s: Seq<char>, c: char)
    requires
        !s.contains(c),
    ensures
        last_position(s, c) == -1,
    decreases s.len(),
{
    if s.len() > 0 {
        assert(s.contains(s.last()));
        assert(!s.drop_last().contains(c)) by {
            if s.drop_last().contains(c) {
                let i = choose|i: int| 0 <= i < s.drop_last().len() && s.drop_last()[i] == c;
                assert(s[i] == c);
            }
        }
        lemma_no_position(s.drop_last(), c);
    }
}

/// The extension of a name is what follows its last dot, whatever stands before
/// that dot and whatever the extension is made of.
pub proof fn law_extension_follows_the_last_dot(stem: Seq<char>, extension: Seq<char>)
    requires
        stem.len() > 0,
        extension.len() > 0,
        !extension.contains('.'),
    ensures
        name_extension(stem + seq!['.'] + extension) == Some(extension),
{
    let name = stem + seq!['.'] + extension;
    let k = stem.len() as int;
    assert forall|i: int| k < i < name.len() implies #[trigger] name[i] != '.' by {
        assert(name[i] == extension[i - k - 1]);
    }
    lemma_last_position(name, '.', k);
    assert(name.skip(k + 1) =~= extension);
}

/// A name has no extension if it has no dot, only a leading one, or ends in one.
pub proof fn law_dots_at_the_ends_begin_no_extension(name: Seq<char>)
    requires
        !name.contains('.'),
    ensures
        name_extension(name) is None,
        name_extension(seq!['.'] + name) is None,
        forall|stem: Seq<char>| name_extension(#[trigger] stem.push('.')) is None,
{
    lemma_no_position(name, '.');
    let hidden = seq!['.'] + name;
    assert forall|i: int| 0 < i < hidden.len() implies #[trigger] hidden[i] != '.' by {
        assert(hidden[i] == name[i - 1]);
    }
    lemma_last_position(hidden, '.', 0);
}

/// Whether an override's key names an extension: with or without a leading dot,
/// and in any ASCII case.
pub open spec fn names_extension(key: Seq<char>, extension: Seq<char>) -> bool {
    ||| text::lower_all(key) == text::lower_all(extension)
    ||| text::lower_all(key) == text::lower_all(seq!['.'] + extension)
}

proof fn lemma_key_without_dot(key: Seq<char>, extension: Seq<char>)
    requires
        extension.len() > 0,
        !extension.contains('.'),
    ensures
        text::lower_all(without_dot(key)) == text::lower_all(extension) <==> names_extension(
            key,
            extension,
        ),
{
    let dotted = seq!['.'] + extension;
    let low = text::lower_all(extension);
    assert(text::lower_all(dotted) =~= seq!['.'] + low);
    assert(extension.contains(extension[0]));
    assert(low[0] != '.');
    if key.len() > 0 && key[0] == '.' {
        assert(text::lower_all(key) =~= seq!['.'] + text::lower_all(key.skip(1)));
        assert(text::lower_all(key)[0] == '.');
        if text::lower_all(key) == text::lower_all(dotted) {
            assert(text::lower_all(key).skip(1) =~= text::lower_all(key.skip(1)));
            assert(text::lower_all(dotted).skip(1) =~= low);
        }
    } else if key.len() > 0 {
        assert(text::lower_all(key)[0] != '.');
        assert(text::lower_all(dotted)[0] == '.');
    } else {
        assert(text::lower_all(key).len() == 0);
        assert(text::lower_all(dotted).len() > 0);
    }
}

proof fn lemma_first_override(
    overrides: Seq<(Seq<char>, Seq<char>)>,
    extension: Seq<char>,
    k: int,
)
    requires
        extension.len() > 0,
        !extension.contains('.'),
        0 <= k <= overrides.len(),
        k < overrides.len() ==> names_extension(overrides[k].0, extension),
        forall|i: int| 0 <= i < k ==> !names_extension((#[trigger] overrides[i]).0, extension),
    ensures
        override_for(overrides, extension) == if k < overrides.len() {
            Some(overrides[k].1)
        } else {
            None
        },
    decreases k,
{
    if overrides.len() > 0 {
        lemma_key_without_dot(overrides[0].0, extension);
        if k > 0 {
            assert(!names_extension(overrides[0].0, extension));
            let rest = overrides.skip(1);
            assert forall|i: int| 0 <= i < k - 1 implies !names_extension(
                (#[trigger] rest[i]).0,
                extension,
            ) by {
                assert(rest[i] == overrides[i + 1]);
            }
            lemma_first_override(rest, extension, k - 1);
        }
    }
}

proof fn lemma_path_extension(directory: Seq<char>, name: Seq<char>)
    requires
        name.len() > 0,
        name != seq!['.'],
        !name.contains('/'),
    ensures
        path_extension(name) == name_extension(name),
        path_extension(directory + seq!['/'] + name) == name_extension(name),
{
    text::lemma_pieces_without_separator(name, '/');
    text::lemma_pieces_append(directory, name, '/');
}

/// A file `stem.extension`, in whatever directory, has the type of the first
/// override whose key names the extension, else what is registered for the
/// extension in lower case, else the default. `first` is the place of that
/// override, or the number of overrides where there is none.
pub proof fn law_content_type_goes_by_the_extension(
    directory: Seq<char>,
    stem: Seq<char>,
    extension: Seq<char>,
    overrides: Seq<(Seq<char>, Seq<char>)>,
    default_content_type: Seq<char>,
    first: int,
)
    requires
        stem.len() > 0,
        !stem.contains('/'),
        extension.len() > 0,
        !extension.contains('.'),
        !extension.contains('/'),
        0 <= first <= overrides.len(),
        first < overrides.len() ==> names_extension(overrides[first].0, extension),
        forall|i: int| 0 <= i < first ==> !names_extension((#[trigger] overrides[i]).0, extension),
    ensures
        ({
            let name = stem + seq!['.'] + extension;
            let expected = if first < overrides.len() {
                overrides[first].1
            } else if guessed_type(text::lower_all(extension)) is Some {
                guessed_type(text::lower_all(extension))->0
            } else {
                default_content_type
            };
            &&& content_type(name, overrides, default_content_type) == expected
            &&& content_type(directory + seq!['/'] + name, overrides, default_content_type)
                == expected
        }),
{
    let name = stem + seq!['.'] + extension;
    law_extension_follows_the_last_dot(stem, extension);
    assert(!name.contains('/')) by {
        if name.contains('/') {
            let i = choose|i: int| 0 <= i < name.len() && name[i] == '/';
            if i < stem.len() {
                assert(stem[i] == '/');
            } else if i > stem.len() {
                assert(extension[i - stem.len() - 1] == '/');
            }
        }
    }
    lemma_path_extension(directory, name);
    lemma_first_override(overrides, extension, first);
}

/// A slash behind a path, and a `.` segment behind it, make no difference to
/// its content type; what stands before the last segment makes none either.
pub proof fn law_content_type_goes_by_the_last_segment(
    path: Seq<char>,
    other: Seq<char>,
    name: Seq<char>,
    overrides: Seq<(Seq<char>, Seq<char>)>,
    default_content_type: Seq<char>,
)
    requires
        name.len() > 0,
        name != seq!['.'],
        !name.contains('/'),
    ensures
        content_type(path + seq!['/'], overrides, default_content_type) == content_type(
            path,
            overrides,
            default_content_type,
        ),
        content_type(path + seq!['/', '.'], overrides, default_content_type) == content_type(
            path,
            overrides,
            default_content_type,
        ),
        content_type(path + seq!['/'] + name, overrides, default_content_type) == content_type(
            other + seq!['/'] + name,
            overrides,
            default_content_type,
        ),
{
    let empty = Seq::<char>::empty();
    let dot = seq!['.'];
    let all = text::pieces(path, '/');
    assert(!dot.contains('/'));
    text::lemma_pieces_append(path, empty, '/');
    text::lemma_pieces_append(path, dot, '/');
    assert(path + seq!['/'] + empty =~= path + seq!['/']);
    assert(path + seq!['/'] + dot =~= path + seq!['/', '.']);
    assert(all.push(empty).drop_last() =~= all);
    assert(all.push(dot).drop_last() =~= all);
    lemma_path_extension(path, name);
    lemma_path_extension(other, name);
}

} // verus!
