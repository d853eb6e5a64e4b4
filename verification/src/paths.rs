//! Paths of model files, as texts with `/` between their parts, and the ids
//! that are derived from them. Where a system separates the parts otherwise,
//! its paths are written with `/` before they come here.
use crate::ids::has_single_dashes;
use crate::ids::is_ascii;
use crate::ids::is_plain_id;
use crate::ids::law_id_has_single_dashes;
use crate::ids::law_id_of_ascii_stem;
use crate::list::copy_part;
use crate::text::chars_of;
use crate::text::ends_with;
use crate::text::has_suffix;
use crate::text::same_text;
use crate::text::text_of;
use crate::text::trim_end_char;
use crate::text::trim_start_char;
use crate::text::without_leading;
use crate::text::without_trailing;
use vstd::prelude::*;
use vstd::string::*;

verus! {

/// A path without the separators at its end, and without the `.` parts there.
pub open spec fn path_trimmed(p: Seq<char>) -> Seq<char>
    decreases p.len(),
{
    if p.len() > 1 && (p.last() == '/' || (p.last() == '.' && p[p.len() - 2] == '/')) {
        path_trimmed(p.drop_last())
    } else {
        p
    }
}

/// Where the last part of a path starts.
pub open spec fn name_start(p: Seq<char>) -> int
    decreases p.len(),
{
    if p.len() == 0 || p.last() == '/' {
        p.len() as int
    } else {
        name_start(p.drop_last())
    }
}

/// The last part of a path, if it names a file.
pub open spec fn file_name(p: Seq<char>) -> Option<Seq<char>> {
    let t = path_trimmed(p);
    let n = t.skip(name_start(t));
    if n.len() == 0 || n == seq!['.'] || n == seq!['.', '.'] {
        None
    } else {
        Some(n)
    }
}

/// The directory of a path that names a file.
pub open spec fn parent(p: Seq<char>) -> Seq<char> {
    let t = path_trimmed(p);
    path_trimmed(t.take(name_start(t)))
}

/// A path with its last part replaced, or with one more part where it names no
/// file.
pub open spec fn with_name(p: Seq<char>, name: Seq<char>) -> Seq<char> {
    let dir = if file_name(p) is Some {
        parent(p)
    } else {
        p
    };
    if dir.len() == 0 || dir.last() == '/' {
        dir + name
    } else {
        dir.push('/') + name
    }
}

/// The position of the last `.`, or -1.
pub open spec fn last_dot(n: Seq<char>) -> int
    decreases n.len(),
{
    if n.len() == 0 {
        -1
    } else if n.last() == '.' {
        n.len() - 1
    } else {
        last_dot(n.drop_last())
    }
}

/// A file name without its extension. A `.` at the start does not begin an
/// extension.
pub open spec fn stem_of(n: Seq<char>) -> Seq<char> {
    if last_dot(n) <= 0 {
        n
    } else {
        n.take(last_dot(n))
    }
}

/// The extension of a file name, if it has one.
pub open spec fn extension_of(n: Seq<char>) -> Option<Seq<char>> {
    if last_dot(n) <= 0 {
        None
    } else {
        Some(n.skip(last_dot(n) + 1))
    }
}

/// The file name of a path, or nothing.
pub open spec fn name_or_empty(p: Seq<char>) -> Seq<char> {
    match file_name(p) {
        Some(n) => n,
        None => seq![],
    }
}

/// The file name of a path without its extension, or nothing.
pub open spec fn stem_or_empty(p: Seq<char>) -> Seq<char> {
    match file_name(p) {
        Some(n) => stem_of(n),
        None => seq![],
    }
}

proof fn lemma_last_dot(n: Seq<char>)
    ensures
        -1 <= last_dot(n) < n.len(),
    decreases n.len(),
{
    if n.len() > 0 && n.last() != '.' {
        lemma_last_dot(n.drop_last());
    }
}

fn trim_path(v: &Vec<char>) -> (r: Vec<char>)
    ensures
        r@ == path_trimmed(v@),
{
    let mut j: usize = v.len();
    assert(v@.take(j as int) =~= v@);
    while j > 1 && (v[j - 1] == '/' || (v[j - 1] == '.' && v[j - 2] == '/'))
        invariant
            j <= v.len(),
            path_trimmed(v@.take(j as int)) == path_trimmed(v@),
        decreases j,
    {
        assert(v@.take(j as int).drop_last() =~= v@.take(j - 1));
        j -= 1;
    }
    assert(v@.take(j as int) =~= v@.subrange(0, j as int));
    copy_part(v, 0, j)
}

fn find_name_start(v: &Vec<char>) -> (r: usize)
    ensures
        r == name_start(v@),
        r <= v.len(),
{
    let mut j: usize = v.len();
    assert(v@.take(j as int) =~= v@);
    while j > 0 && v[j - 1] != '/'
        invariant
            j <= v.len(),
            name_start(v@.take(j as int)) == name_start(v@),
        decreases j,
    {
        assert(v@.take(j as int).drop_last() =~= v@.take(j - 1));
        j -= 1;
    }
    j
}

/// The file name of a path, if it names a file.
fn find_file_name(p: &Vec<char>) -> (r: Option<Vec<char>>)
    ensures
        match r {
            Some(n) => file_name(p@) == Some(n@),
            None => file_name(p@) is None,
        },
{
    let t: Vec<char> = trim_path(p);
    let start: usize = find_name_start(&t);
    let n: Vec<char> = copy_part(&t, start, t.len());
    proof {
        assert(n@ =~= t@.skip(name_start(t@)));
        assert(seq!['.'].len() == 1 && seq!['.'][0] == '.');
        assert(seq!['.', '.'].len() == 2 && seq!['.', '.'][0] == '.' && seq!['.', '.'][1] == '.');
    }
    if n.len() == 0 {
        return None;
    }
    if n.len() == 1 && n[0] == '.' {
        assert(n@ =~= seq!['.']);
        return None;
    }
    if n.len() == 2 && n[0] == '.' && n[1] == '.' {
        assert(n@ =~= seq!['.', '.']);
        return None;
    }
    Some(n)
}

/// A file name in front of its extension, and the extension.
fn split_name(n: &Vec<char>) -> (r: (Vec<char>, Option<Vec<char>>))
    ensures
        r.0@ == stem_of(n@),
        match r.1 {
            Some(e) => extension_of(n@) == Some(e@),
            None => extension_of(n@) is None,
        },
{
    let mut j: usize = n.len();
    assert(n@.take(j as int) =~= n@);
    while j > 0 && n[j - 1] != '.'
        invariant
            j <= n.len(),
            last_dot(n@.take(j as int)) == last_dot(n@),
        decreases j,
    {
        assert(n@.take(j as int).drop_last() =~= n@.take(j - 1));
        j -= 1;
    }
    proof {
        lemma_last_dot(n@);
        assert(n@.subrange(0, n@.len() as int) =~= n@);
    }
    if j <= 1 {
        return (copy_part(n, 0, n.len()), None);
    }
    proof {
        assert(n@.subrange(0, j - 1) =~= n@.take(last_dot(n@)));
        assert(n@.subrange(j as int, n@.len() as int) =~= n@.skip(last_dot(n@) + 1));
    }
    (copy_part(n, 0, j - 1), Some(copy_part(n, j, n.len())))
}

/// The file name of a path, or an empty text.
pub fn file_name_text(path: &str) -> (r: String)
    ensures
        r@ == name_or_empty(path@),
{
    let p: Vec<char> = chars_of(path);
    match find_file_name(&p) {
        Some(n) => text_of(&n),
        None => {
            let s: String = String::new();
            assert(s@ =~= Seq::<char>::empty());
            s
        },
    }
}

fn stem_chars(path: &str) -> (r: Vec<char>)
    ensures
        r@ == stem_or_empty(path@),
{
    let p: Vec<char> = chars_of(path);
    match find_file_name(&p) {
        Some(n) => split_name(&n).0,
        None => {
            let v: Vec<char> = Vec::new();
            assert(v@ =~= Seq::<char>::empty());
            v
        },
    }
}

/// The file name of a path without its extension, or an empty text.
pub fn file_stem_text(path: &str) -> (r: String)
    ensures
        r@ == stem_or_empty(path@),
{
    let v: Vec<char> = stem_chars(path);
    text_of(&v)
}

/// Whether a file name has the extension `ext`.
pub fn has_extension(name: &str, ext: &str) -> (r: bool)
    ensures
        r == (extension_of(name@) == Some(ext@)),
{
    let n: Vec<char> = chars_of(name);
    match split_name(&n).1 {
        Some(e) => {
            let found: String = text_of(&e);
            same_text(found.as_str(), ext)
        },
        None => false,
    }
}

/// The file name of a variant: the stem, `-`, the suffix, and the extension,
/// which is `bin` where there is none.
pub open spec fn variant_name(p: Seq<char>, suffix: Seq<char>) -> Seq<char> {
    let ext = match file_name(p) {
        Some(n) => match extension_of(n) {
            Some(e) => e,
            None => "bin"@,
        },
        None => "bin"@,
    };
    stem_or_empty(p) + "-"@ + suffix + "."@ + ext
}

/// The path of a variant of the model at `base_path`, in the same directory.
pub fn derive_variant_path(base_path: &str, suffix: &str) -> (r: String)
    ensures
        r@ == with_name(base_path@, variant_name(base_path@, suffix@)),
{
    let p: Vec<char> = chars_of(base_path);
    let found: Option<Vec<char>> = find_file_name(&p);
    let mut name: String = String::new();
    let mut ext: String = "bin".to_owned();
    if let Some(n) = &found {
        let (stem, e) = split_name(n);
        name = text_of(&stem);
        if let Some(e) = e {
            ext = text_of(&e);
        }
    }
    assert(name@ =~= stem_or_empty(base_path@));
    name.append("-");
    name.append(suffix);
    name.append(".");
    name.append(ext.as_str());
    assert(name@ =~= variant_name(base_path@, suffix@));
    let dir: Vec<char> = if found.is_some() {
        let t: Vec<char> = trim_path(&p);
        let start: usize = find_name_start(&t);
        let d: Vec<char> = copy_part(&t, 0, start);
        assert(d@ =~= t@.take(name_start(t@)));
        trim_path(&d)
    } else {
        p
    };
    let mut out: String = text_of(&dir);
    if dir.len() > 0 && dir[dir.len() - 1] != '/' {
        out.push('/');
    }
    out.append(name.as_str());
    out
}

/// What is left of a model id without a variant suffix, if it has one.
pub open spec fn base_id_of(id: Seq<char>) -> Option<Seq<char>> {
    if ends_with(id, "-rft"@) && id.len() > 4 {
        Some(id.take(id.len() - 4))
    } else if ends_with(id, "-grpo"@) && id.len() > 5 {
        Some(id.take(id.len() - 5))
    } else {
        None
    }
}

/// The id of the base model of a variant: `id` without its `-rft` or `-grpo`,
/// when something is left.
pub fn strip_variant_suffix(id: &str) -> (r: Option<String>)
    ensures
        match r {
            Some(b) => base_id_of(id@) == Some(b@),
            None => base_id_of(id@) is None,
        },
{
    proof {
        reveal_strlit("-rft");
        reveal_strlit("-grpo");
    }
    let v: Vec<char> = chars_of(id);
    if v.len() > 4 && has_suffix(&v, "-rft") {
        let b: Vec<char> = copy_part(&v, 0, v.len() - 4);
        assert(b@ =~= id@.take(id@.len() - 4));
        return Some(text_of(&b));
    }
    if v.len() > 5 && has_suffix(&v, "-grpo") {
        let b: Vec<char> = copy_part(&v, 0, v.len() - 5);
        assert(b@ =~= id@.take(id@.len() - 5));
        return Some(text_of(&b));
    }
    None
}

/// A variant id is stripped exactly where something stands before its `-rft` or
/// `-grpo`, and to just that.
pub proof fn law_stripping_is_exact(id: Seq<char>, base: Seq<char>)
    ensures
        base_id_of(id) == Some(base) <==> base.len() > 0 && (id == base + "-rft"@ || id == base
            + "-grpo"@),
{
    reveal_strlit("-rft");
    reveal_strlit("-grpo");
    if base.len() > 0 {
        law_variant_id_strips(base);
    }
    if base_id_of(id) == Some(base) {
        if ends_with(id, "-rft"@) && id.len() > 4 {
            assert(id =~= id.take(id.len() - 4) + id.skip(id.len() - 4));
        } else {
            assert(id =~= id.take(id.len() - 5) + id.skip(id.len() - 5));
        }
    }
}

/// A variant id is stripped to the id it was made from.
pub proof fn law_variant_id_strips(base: Seq<char>)
    requires
        base.len() > 0,
    ensures
        base_id_of(base + "-rft"@) == Some(base),
        base_id_of(base + "-grpo"@) == Some(base),
{
    reveal_strlit("-rft");
    reveal_strlit("-grpo");
    let r = base + "-rft"@;
    let g = base + "-grpo"@;
    assert(r.skip(r.len() - 4) =~= "-rft"@);
    assert(r.take(r.len() - 4) =~= base);
    assert(g.skip(g.len() - 5) =~= "-grpo"@);
    assert(g.take(g.len() - 5) =~= base);
    assert(!ends_with(g, "-rft"@)) by {
        assert(g.skip(g.len() - 4)[0] == 'g');
    }
}

/// Whether the standard library counts a character as a letter or a number.
pub uninterp spec fn alphanumeric(c: char) -> bool;

/// The lower-case form of a character by the standard library, which can be
/// more than one character.
pub uninterp spec fn lowercase(c: char) -> Seq<char>;

/// `char::is_alphanumeric`. The answer depends on the character alone. Of the
/// ASCII characters exactly the letters and the digits count.
#[verifier::external_body]
fn is_alphanumeric_char(c: char) -> (r: bool)
    ensures
        r == alphanumeric(c),
        c < '\u{80}' ==> r == ('0' <= c <= '9' || 'a' <= c <= 'z' || 'A' <= c <= 'Z'),
{
    c.is_alphanumeric()
}

/// `char::to_lowercase`, as a text. It depends on the character alone. An ASCII
/// capital becomes its small letter; any other ASCII character stays as it is.
/// The text has one or more characters. They are the character itself or those
/// that the Unicode database maps it to, and there nothing is mapped to `-`.
#[verifier::external_body]
fn lowercase_text(c: char) -> (r: String)
    ensures
        r@ == lowercase(c),
        c < '\u{80}' && !('A' <= c <= 'Z') ==> r@ == seq![c],
        'A' <= c <= 'Z' ==> r@ == seq![(c as u32 + 32) as char],
        r@.len() > 0,
        c != '-' ==> !r@.contains('-'),
{
    c.to_lowercase().to_string()
}

/// Whether a character is kept in an id: an ASCII letter or digit, or whatever
/// the standard library counts as one beyond ASCII.
pub open spec fn kept_in_id(c: char) -> bool {
    if c <= '\u{7f}' {
        '0' <= c <= '9' || 'a' <= c <= 'z' || 'A' <= c <= 'Z'
    } else {
        alphanumeric(c)
    }
}

/// The lower-case form of a character. Beyond ASCII it is the one of the
/// standard library, which has at least one character and no `-`; a form without
/// these would not count as one.
pub open spec fn small(c: char) -> Seq<char> {
    if 'A' <= c <= 'Z' {
        seq![(c as u32 + 32) as char]
    } else if c <= '\u{7f}' {
        seq![c]
    } else if lowercase(c).len() > 0 && !lowercase(c).contains('-') {
        lowercase(c)
    } else {
        seq![c]
    }
}

/// The pieces that the characters of a stem contribute to an id: the lower-case
/// form of a letter or number, and nothing for any other character.
pub open spec fn id_parts(stem: Seq<char>) -> Seq<Option<Seq<char>>> {
    stem.map_values(
        |c: char|
            if kept_in_id(c) {
                Some(small(c))
            } else {
                None
            },
    )
}

/// The pieces one after the other, with one `-` for each run of missing ones.
pub open spec fn dashed(parts: Seq<Option<Seq<char>>>) -> Seq<char>
    decreases parts.len(),
{
    if parts.len() == 0 {
        seq![]
    } else {
        let rest = dashed(parts.drop_last());
        match parts.last() {
            Some(t) => rest + t,
            None => if parts.len() >= 2 && parts[parts.len() - 2] is None {
                rest
            } else {
                rest.push('-')
            },
        }
    }
}

/// The id that a list of pieces gives: dashed, without `-` at either end.
pub open spec fn id_of_parts(parts: Seq<Option<Seq<char>>>) -> Seq<char> {
    without_trailing(without_leading(dashed(parts), '-'), '-')
}

/// The view of a list of optional texts.
pub open spec fn opt_texts(v: Seq<Option<String>>) -> Seq<Option<Seq<char>>> {
    v.map_values(
        |t: Option<String>|
            match t {
                Some(s) => Some(s@),
                None => None,
            },
    )
}

/// The id that a list of pieces gives. A missing piece stands for a character
/// that is neither letter nor number.
pub fn id_from_parts(parts: &Vec<Option<String>>) -> (r: String)
    ensures
        r@ == id_of_parts(opt_texts(parts@)),
{
    let ghost views = opt_texts(parts@);
    let mut out: String = String::new();
    let mut was_sep: bool = false;
    let mut i: usize = 0;
    while i < parts.len()
        invariant
            i <= parts.len(),
            views == opt_texts(parts@),
            was_sep == (i > 0 && views[i - 1] is None),
            out@ == dashed(views.take(i as int)),
        decreases parts.len() - i,
    {
        proof {
            let t = views.take(i + 1);
            assert(t.drop_last() =~= views.take(i as int));
            assert(t.last() == views[i as int]);
            if i > 0 {
                assert(t[i - 1] == views[i - 1]);
            }
        }
        match &parts[i] {
            Some(s) => {
                out.append(s.as_str());
                was_sep = false;
            },
            None => {
                if !was_sep {
                    out.push('-');
                }
                was_sep = true;
            },
        }
        i += 1;
    }
    assert(views.take(i as int) =~= views);
    let v: Vec<char> = chars_of(out.as_str());
    let a: Vec<char> = trim_start_char(&v, '-');
    let b: Vec<char> = trim_end_char(&a, '-');
    text_of(&b)
}

/// The id of the model at a path.
pub open spec fn derived_id(p: Seq<char>) -> Seq<char> {
    id_of_parts(id_parts(stem_or_empty(p)))
}

/// The id of a model: the stem of its file name in lower case, with a single
/// `-` for each run of characters that are neither letters nor numbers, and
/// none at either end. That of an ASCII stem is made of small ASCII letters and
/// digits with single dashes between them.
pub fn derive_id(model_path: &str) -> (r: String)
    ensures
        r@ == derived_id(model_path@),
        has_single_dashes(r@),
        is_ascii(stem_or_empty(model_path@)) ==> is_plain_id(r@),
{
    proof {
        law_id_has_single_dashes(stem_or_empty(model_path@));
        if is_ascii(stem_or_empty(model_path@)) {
            law_id_of_ascii_stem(stem_or_empty(model_path@));
        }
    }
    let stem: Vec<char> = stem_chars(model_path);
    let mut parts: Vec<Option<String>> = Vec::new();
    let mut i: usize = 0;
    while i < stem.len()
        invariant
            i <= stem.len(),
            parts@.len() == i,
            forall|k: int| 0 <= k < i ==> opt_texts(parts@)[k] == #[trigger] id_parts(stem@)[k],
        decreases stem.len() - i,
    {
        let c: char = stem[i];
        let ghost before_push = opt_texts(parts@);
        if is_alphanumeric_char(c) {
            parts.push(Some(lowercase_text(c)));
        } else {
            parts.push(None);
        }
        proof {
            assert forall|k: int| 0 <= k < i + 1 implies opt_texts(parts@)[k] == #[trigger] id_parts(
                stem@,
            )[k] by {
                if k < i {
                    assert(opt_texts(parts@)[k] == before_push[k]);
                }
            }
        }
        i += 1;
    }
    assert(opt_texts(parts@) =~= id_parts(stem@));
    id_from_parts(&parts)
}

} // verus!
