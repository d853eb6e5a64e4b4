//! What holds of the ids of models: their form, and how the id of a variant
//! relates to that of its base.
use crate::paths::base_id_of;
use crate::paths::dashed;
use crate::paths::derived_id;
use crate::paths::extension_of;
use crate::paths::file_name;
use crate::paths::id_of_parts;
use crate::paths::id_parts;
use crate::paths::kept_in_id;
use crate::paths::last_dot;
use crate::paths::law_variant_id_strips;
use crate::paths::name_start;
use crate::paths::parent;
use crate::paths::path_trimmed;
use crate::paths::small;
use crate::paths::stem_of;
use crate::paths::stem_or_empty;
use crate::paths::variant_name;
use crate::paths::with_name;
use crate::text::without_leading;
use crate::text::without_trailing;
use vstd::prelude::*;

verus! {

/// Whether a text holds ASCII characters alone.
pub open spec fn is_ascii(s: Seq<char>) -> bool {
    forall|i: int| 0 <= i < s.len() ==> #[trigger] s[i] <= '\u{7f}'
}

/// Whether a character is a small ASCII letter or a digit.
pub open spec fn is_id_letter(c: char) -> bool {
    'a' <= c <= 'z' || '0' <= c <= '9'
}

/// Whether no two dashes stand side by side.
pub open spec fn no_double_dash(s: Seq<char>) -> bool {
    forall|i: int| #![trigger s[i]] 0 <= i < s.len() - 1 && s[i] == '-' ==> s[i + 1] != '-'
}

/// Whether every dash of a text stands alone and between other characters.
pub open spec fn has_single_dashes(s: Seq<char>) -> bool {
    &&& no_double_dash(s)
    &&& s.len() > 0 ==> s[0] != '-' && s.last() != '-'
}

/// Whether a text is made of small ASCII letters and digits with single dashes
/// between them.
pub open spec fn is_plain_id(s: Seq<char>) -> bool {
    &&& forall|i: int| 0 <= i < s.len() ==> (#[trigger] s[i] == '-' || is_id_letter(s[i]))
    &&& has_single_dashes(s)
}

/// Whether each piece is a text without dashes, and not empty.
pub open spec fn dashless(parts: Seq<Option<Seq<char>>>) -> bool {
    forall|i: int|
        0 <= i < parts.len() ==> ((#[trigger] parts[i]) matches Some(t) ==> t.len() > 0
            && !t.contains('-'))
}

/// A text without its dashes.
pub open spec fn undashed(s: Seq<char>) -> Seq<char>
    decreases s.len(),
{
    if s.len() == 0 {
        seq![]
    } else if s.last() == '-' {
        undashed(s.drop_last())
    } else {
        undashed(s.drop_last()).push(s.last())
    }
}

/// The letters and digits of a stem in lower case, in order.
pub open spec fn letters_of(stem: Seq<char>) -> Seq<char>
    decreases stem.len(),
{
    if stem.len() == 0 {
        seq![]
    } else if kept_in_id(stem.last()) {
        letters_of(stem.drop_last()) + small(stem.last())
    } else {
        letters_of(stem.drop_last())
    }
}

/// Pieces dashed: dashes stand alone, and one at the end stands for a missing
/// last piece.
proof fn lemma_dashed_form(parts: Seq<Option<Seq<char>>>)
    requires
        dashless(parts),
    ensures
        no_double_dash(dashed(parts)),
        parts.len() > 0 ==> dashed(parts).len() > 0 && (dashed(parts).last() == '-'
            <==> parts.last() is None),
        parts.len() == 0 ==> dashed(parts).len() == 0,
    decreases parts.len(),
{
    if parts.len() > 0 {
        let rest = parts.drop_last();
        assert forall|i: int| 0 <= i < rest.len() implies ((#[trigger] rest[i]) matches Some(t)
            ==> t.len() > 0 && !t.contains('-')) by {
            assert(rest[i] == parts[i]);
        }
        lemma_dashed_form(rest);
        let d = dashed(rest);
        let e = dashed(parts);
        assert(parts[parts.len() - 1] == parts.last());
        match parts.last() {
            Some(t) => {
                assert forall|i: int| #![trigger e[i]] 0 <= i < e.len() - 1 && e[i] == '-' implies e[i
                    + 1] != '-' by {
                    if i >= d.len() {
                        assert(e[i] == t[i - d.len()]);
                        assert(t.contains(t[i - d.len()]));
                    } else if i + 1 >= d.len() {
                        assert(e[i + 1] == t[i + 1 - d.len()]);
                        assert(t.contains(t[i + 1 - d.len()]));
                    } else {
                        assert(d[i] == e[i]);
                    }
                }
                assert(e.last() == t.last());
                assert(t.contains(t[t.len() - 1]));
            },
            None => {
                if rest.len() > 0 {
                    assert(rest.last() == parts[parts.len() - 2]);
                }
                if parts.len() < 2 || parts[parts.len() - 2] is Some {
                    assert forall|i: int| #![trigger e[i]] 0 <= i < e.len() - 1 && e[i]
                        == '-' implies e[i + 1] != '-' by {
                        assert(d[i] == e[i]);
                        if i + 1 < d.len() {
                            assert(d[i + 1] == e[i + 1]);
                        }
                    }
                }
            },
        }
    }
}

/// Without double dashes, at most one dash falls at either end.
proof fn lemma_trim_dashes(s: Seq<char>)
    requires
        no_double_dash(s),
    ensures
        ({
            let a: int = if s.len() > 0 && s[0] == '-' {
                1
            } else {
                0
            };
            let l = s.skip(a);
            let b: int = if l.len() > 0 && l.last() == '-' {
                1
            } else {
                0
            };
            &&& without_leading(s, '-') == l
            &&& without_trailing(l, '-') == l.take(l.len() - b)
            &&& no_double_dash(l.take(l.len() - b))
            &&& l.take(l.len() - b).len() > 0 ==> l.take(l.len() - b)[0] != '-' && l.take(
                l.len() - b,
            ).last() != '-'
        }),
{
    reveal_with_fuel(without_leading, 2);
    reveal_with_fuel(without_trailing, 2);
    let a: int = if s.len() > 0 && s[0] == '-' {
        1
    } else {
        0
    };
    let l = s.skip(a);
    if a == 1 {
        if s.len() > 1 {
            assert(s[1] != '-');
            assert(l[0] == s[1]);
        }
    } else {
        assert(s.skip(0) =~= s);
    }
    let b: int = if l.len() > 0 && l.last() == '-' {
        1
    } else {
        0
    };
    let x = l.take(l.len() - b);
    if b == 1 {
        assert(x =~= l.drop_last());
        if l.len() > 1 {
            assert(s[a + l.len() - 2] == l[l.len() - 2]);
            assert(s[a + l.len() - 1] == '-');
            assert(l[l.len() - 2] != '-');
        }
    } else {
        assert(x =~= l);
    }
    assert forall|i: int| #![trigger x[i]] 0 <= i < x.len() - 1 && x[i] == '-' implies x[i + 1]
        != '-' by {
        assert(s[a + i] == x[i]);
        assert(s[a + i + 1] == x[i + 1]);
    }
}

proof fn lemma_undashed_add(a: Seq<char>, b: Seq<char>)
    requires
        !b.contains('-'),
    ensures
        undashed(a + b) == undashed(a) + b,
    decreases b.len(),
{
    if b.len() == 0 {
        assert(a + b =~= a);
        assert(undashed(a) + b =~= undashed(a));
    } else {
        let c = b.drop_last();
        assert((a + b).drop_last() =~= a + c);
        assert(!c.contains('-')) by {
            if c.contains('-') {
                let k = choose|k: int| 0 <= k < c.len() && c[k] == '-';
                assert(b[k] == '-');
            }
        }
        lemma_undashed_add(a, c);
        assert(b[b.len() - 1] != '-');
        assert(undashed(a + b) =~= undashed(a) + b);
    }
}

proof fn lemma_undashed_leading(s: Seq<char>)
    requires
        s.len() > 0,
        s[0] == '-',
    ensures
        undashed(s.skip(1)) == undashed(s),
    decreases s.len(),
{
    if s.len() > 1 {
        assert(s.skip(1).drop_last() =~= s.drop_last().skip(1));
        lemma_undashed_leading(s.drop_last());
    } else {
        assert(s.skip(1) =~= Seq::<char>::empty());
        assert(s.drop_last() =~= Seq::<char>::empty());
    }
}

/// The pieces of an id hold no dashes.
proof fn lemma_parts_dashless(stem: Seq<char>)
    ensures
        dashless(id_parts(stem)),
{
    assert forall|i: int| 0 <= i < stem.len() implies ((#[trigger] id_parts(stem)[i]) matches Some(
        t,
    ) ==> t.len() > 0 && !t.contains('-')) by {
        let c = stem[i];
        if kept_in_id(c) {
            let t = small(c);
            if t.contains('-') {
                let k = choose|k: int| 0 <= k < t.len() && t[k] == '-';
                assert(t[k] == '-');
            }
        }
    }
}

/// Every dash of an id stands alone and between other characters, and the
/// letters and digits of the id are those of the stem in lower case, in order.
pub proof fn law_id_has_single_dashes(stem: Seq<char>)
    ensures
        has_single_dashes(id_of_parts(id_parts(stem))),
        undashed(id_of_parts(id_parts(stem))) == letters_of(stem),
{
    let d = dashed(id_parts(stem));
    let x = id_of_parts(id_parts(stem));
    lemma_parts_dashless(stem);
    lemma_dashed_form(id_parts(stem));
    lemma_dashed_letters_of(stem);
    lemma_trim_dashes(d);
    let a: int = if d.len() > 0 && d[0] == '-' {
        1
    } else {
        0
    };
    let l = d.skip(a);
    assert(undashed(l) == undashed(d)) by {
        if a == 1 {
            lemma_undashed_leading(d);
        } else {
            assert(l =~= d);
        }
    }
    if l.len() > 0 && l.last() == '-' {
        assert(x =~= l.drop_last());
    } else {
        assert(x =~= l);
    }
}

proof fn lemma_dashed_letters_of(stem: Seq<char>)
    ensures
        undashed(dashed(id_parts(stem))) == letters_of(stem),
    decreases stem.len(),
{
    let parts = id_parts(stem);
    if stem.len() > 0 {
        let rest = stem.drop_last();
        assert(parts.drop_last() =~= id_parts(rest));
        lemma_dashed_letters_of(rest);
        lemma_parts_dashless(stem);
        let c = stem.last();
        assert(parts[stem.len() - 1] == parts.last());
        let d = dashed(id_parts(rest));
        if kept_in_id(c) {
            let t = small(c);
            assert(parts.last() == Some(t));
            lemma_undashed_add(d, t);
        } else {
            assert(d.push('-').drop_last() =~= d);
        }
    }
}

/// Pieces that are the lower-case forms of ASCII characters.
proof fn lemma_ascii_parts(stem: Seq<char>)
    requires
        is_ascii(stem),
    ensures
        forall|i: int|
            0 <= i < stem.len() ==> ((#[trigger] id_parts(stem)[i]) matches Some(t) ==> t.len() == 1
                && is_id_letter(t[0])),
{
    assert forall|i: int| 0 <= i < stem.len() implies ((#[trigger] id_parts(stem)[i]) matches Some(
        t,
    ) ==> t.len() == 1 && is_id_letter(t[0])) by {
        let c = stem[i];
        assert(c <= '\u{7f}');
    }
}

proof fn lemma_ascii_dashed(stem: Seq<char>)
    requires
        is_ascii(stem),
    ensures
        forall|i: int|
            0 <= i < dashed(id_parts(stem)).len() ==> (#[trigger] dashed(id_parts(stem))[i] == '-'
                || is_id_letter(dashed(id_parts(stem))[i])),
    decreases stem.len(),
{
    let parts = id_parts(stem);
    if stem.len() > 0 {
        let rest = stem.drop_last();
        assert forall|i: int| 0 <= i < rest.len() implies #[trigger] rest[i] <= '\u{7f}' by {
            assert(rest[i] == stem[i]);
        }
        assert(parts.drop_last() =~= id_parts(rest));
        lemma_ascii_dashed(rest);
        lemma_ascii_parts(stem);
        let last = parts[stem.len() - 1];
        let d = dashed(id_parts(rest));
        let e = dashed(parts);
        assert forall|i: int| 0 <= i < e.len() implies (#[trigger] e[i] == '-' || is_id_letter(
            e[i],
        )) by {
            if i < d.len() {
                assert(e[i] == d[i]);
            } else if let Some(t) = last {
                assert(e[i] == t[0]);
            }
        }
    }
}

/// The id of an ASCII stem is made of small letters and digits with single
/// dashes between them.
pub proof fn law_id_of_ascii_stem(stem: Seq<char>)
    requires
        is_ascii(stem),
    ensures
        is_plain_id(id_of_parts(id_parts(stem))),
{
    let d = dashed(id_parts(stem));
    let x = id_of_parts(id_parts(stem));
    law_id_has_single_dashes(stem);
    lemma_parts_dashless(stem);
    lemma_dashed_form(id_parts(stem));
    lemma_ascii_dashed(stem);
    lemma_trim_dashes(d);
    let a: int = if d.len() > 0 && d[0] == '-' {
        1
    } else {
        0
    };
    assert forall|i: int| 0 <= i < x.len() implies (#[trigger] x[i] == '-' || is_id_letter(x[i])) by {
        assert(x[i] == d[a + i]);
    }
}

proof fn lemma_dashed_plain(s: Seq<char>)
    requires
        forall|i: int| 0 <= i < s.len() ==> (#[trigger] s[i] == '-' || is_id_letter(s[i])),
        no_double_dash(s),
    ensures
        dashed(id_parts(s)) == s,
    decreases s.len(),
{
    let parts = id_parts(s);
    if s.len() > 0 {
        let rest = s.drop_last();
        assert forall|i: int| 0 <= i < rest.len() implies (#[trigger] rest[i] == '-'
            || is_id_letter(rest[i])) by {
            assert(rest[i] == s[i]);
        }
        assert forall|i: int| #![trigger rest[i]] 0 <= i < rest.len() - 1 && rest[i]
            == '-' implies rest[i + 1] != '-' by {
            assert(s[i] == rest[i]);
            assert(s[i + 1] == rest[i + 1]);
        }
        lemma_dashed_plain(rest);
        assert(parts.drop_last() =~= id_parts(rest));
        let c = s.last();
        assert(s[s.len() - 1] == c);
        if s.len() >= 2 {
            assert(s[s.len() - 2] == '-' ==> c != '-');
            assert(parts[s.len() - 2] is None <==> s[s.len() - 2] == '-');
        }
        assert(dashed(parts) =~= s);
    }
}

/// An id of small letters and digits with single dashes between them is the id
/// of the file that has it for a stem.
pub proof fn law_id_is_its_own_id(id: Seq<char>)
    requires
        is_plain_id(id),
        id.len() > 0,
    ensures
        derived_id(id + ".bin"@) == id,
{
    reveal_strlit(".bin");
    lemma_dashed_plain(id);
    lemma_trim_dashes(id);
    assert(id.skip(0) =~= id);
    assert(id.take(id.len() as int) =~= id);
    let p = id + ".bin"@;
    assert(path_trimmed(p) == p);
    assert forall|i: int| 0 <= i < p.len() implies #[trigger] p[i] != '/' by {
        if i < id.len() {
            assert(p[i] == id[i]);
        }
    }
    assert(Seq::<char>::empty() + p =~= p);
    lemma_name_start(Seq::empty(), p);
    assert(p.skip(0) =~= p);
    assert(seq!['.'].len() == 1 && seq!['.', '.'].len() == 2);
    assert(file_name(p) == Some(p));
    let ext = p.skip((id.len() + 1) as int);
    assert(p =~= id.push('.') + ext);
    assert forall|i: int| 0 <= i < ext.len() implies #[trigger] ext[i] != '.' by {}
    lemma_last_dot_at(id, ext);
    assert(p.take(id.len() as int) =~= id);
}

proof fn lemma_name_start(dir: Seq<char>, name: Seq<char>)
    requires
        dir.len() == 0 || dir.last() == '/',
        forall|i: int| 0 <= i < name.len() ==> #[trigger] name[i] != '/',
    ensures
        name_start(dir + name) == dir.len(),
    decreases name.len(),
{
    if name.len() == 0 {
        assert(dir + name =~= dir);
    } else {
        let rest = name.drop_last();
        assert forall|i: int| 0 <= i < rest.len() implies #[trigger] rest[i] != '/' by {
            assert(rest[i] == name[i]);
        }
        assert((dir + name).drop_last() =~= dir + rest);
        assert(name[name.len() - 1] != '/');
        lemma_name_start(dir, rest);
    }
}

proof fn lemma_name_holds_no_separator(p: Seq<char>)
    ensures
        0 <= name_start(p) <= p.len(),
        forall|i: int| name_start(p) <= i < p.len() ==> #[trigger] p[i] != '/',
    decreases p.len(),
{
    if p.len() > 0 && p.last() != '/' {
        lemma_name_holds_no_separator(p.drop_last());
        assert forall|i: int| name_start(p) <= i < p.len() implies #[trigger] p[i] != '/' by {
            if i < p.len() - 1 {
                assert(p[i] == p.drop_last()[i]);
            }
        }
    }
}

proof fn lemma_last_dot_at(stem: Seq<char>, ext: Seq<char>)
    requires
        forall|i: int| 0 <= i < ext.len() ==> #[trigger] ext[i] != '.',
    ensures
        last_dot(stem.push('.') + ext) == stem.len(),
    decreases ext.len(),
{
    let n = stem.push('.') + ext;
    if ext.len() == 0 {
        assert(n =~= stem.push('.'));
    } else {
        let rest = ext.drop_last();
        assert forall|i: int| 0 <= i < rest.len() implies #[trigger] rest[i] != '.' by {
            assert(rest[i] == ext[i]);
        }
        assert(ext[ext.len() - 1] != '.');
        assert(n.drop_last() =~= stem.push('.') + rest);
        lemma_last_dot_at(stem, rest);
    }
}

proof fn lemma_no_dot_behind_last(n: Seq<char>)
    ensures
        -1 <= last_dot(n) < n.len(),
        forall|i: int| last_dot(n) < i < n.len() ==> #[trigger] n[i] != '.',
    decreases n.len(),
{
    if n.len() > 0 && n.last() != '.' {
        lemma_no_dot_behind_last(n.drop_last());
        assert forall|i: int| last_dot(n) < i < n.len() implies #[trigger] n[i] != '.' by {
            if i < n.len() - 1 {
                assert(n[i] == n.drop_last()[i]);
            }
        }
    }
}

/// The parts of the file name of a variant: none holds a separator, and there is
/// no `.` behind the last one.
proof fn lemma_variant_name(p: Seq<char>, suffix: Seq<char>) -> (ext: Seq<char>)
    requires
        file_name(p) is Some,
        forall|i: int| 0 <= i < suffix.len() ==> #[trigger] suffix[i] != '/',
    ensures
        variant_name(p, suffix) == (stem_or_empty(p) + "-"@ + suffix).push('.') + ext,
        forall|i: int| 0 <= i < ext.len() ==> #[trigger] ext[i] != '.',
        forall|i: int|
            0 <= i < variant_name(p, suffix).len() ==> #[trigger] variant_name(p, suffix)[i] != '/',
{
    reveal_strlit("-");
    reveal_strlit(".");
    reveal_strlit("bin");
    let t = path_trimmed(p);
    let n = file_name(p)->0;
    lemma_name_holds_no_separator(t);
    assert forall|i: int| 0 <= i < n.len() implies #[trigger] n[i] != '/' by {
        assert(n[i] == t[name_start(t) + i]);
    }
    lemma_no_dot_behind_last(n);
    let stem = stem_of(n);
    let ext = match extension_of(n) {
        Some(e) => e,
        None => "bin"@,
    };
    assert forall|i: int| 0 <= i < ext.len() implies #[trigger] ext[i] != '.' && ext[i] != '/' by {
        if extension_of(n) is Some {
            assert(ext[i] == n[last_dot(n) + 1 + i]);
        }
    }
    assert forall|i: int| 0 <= i < stem.len() implies #[trigger] stem[i] != '/' by {
        assert(stem[i] == n[i]);
    }
    let long = stem + "-"@ + suffix;
    let name = variant_name(p, suffix);
    assert(name =~= long.push('.') + ext);
    assert forall|i: int| 0 <= i < name.len() implies #[trigger] name[i] != '/' by {
        if i < stem.len() {
            assert(name[i] == stem[i]);
        } else if stem.len() < i < stem.len() + 1 + suffix.len() {
            assert(name[i] == suffix[i - stem.len() - 1]);
        } else if i > long.len() {
            assert(name[i] == ext[i - long.len() - 1]);
        }
    }
    ext
}

/// A path with a new file name names that file.
proof fn lemma_new_name(p: Seq<char>, name: Seq<char>)
    requires
        file_name(p) is Some,
        name.len() > 2,
        forall|i: int| 0 <= i < name.len() ==> #[trigger] name[i] != '/',
    ensures
        file_name(with_name(p, name)) == Some(name),
{
    let given = parent(p);
    let dir = if given.len() == 0 || given.last() == '/' {
        given
    } else {
        given.push('/')
    };
    let q = with_name(p, name);
    assert(q =~= dir + name);
    assert(q[q.len() - 1] == name[name.len() - 1]);
    assert(q[q.len() - 2] == name[name.len() - 2]);
    assert(path_trimmed(q) == q);
    lemma_name_start(dir, name);
    assert(q.skip(dir.len() as int) =~= name);
    assert(seq!['.'].len() == 1 && seq!['.', '.'].len() == 2);
}

/// The stem of a variant's path is that of its base with a dash and the suffix.
proof fn lemma_variant_stem(p: Seq<char>, suffix: Seq<char>)
    requires
        file_name(p) is Some,
        suffix.len() > 0,
        forall|i: int| 0 <= i < suffix.len() ==> #[trigger] suffix[i] != '/',
    ensures
        stem_or_empty(with_name(p, variant_name(p, suffix))) == stem_or_empty(p) + "-"@ + suffix,
{
    reveal_strlit("-");
    let ext = lemma_variant_name(p, suffix);
    let long = stem_or_empty(p) + "-"@ + suffix;
    let name = variant_name(p, suffix);
    lemma_last_dot_at(long, ext);
    lemma_new_name(p, name);
    assert(name.take(long.len() as int) =~= long);
}

/// Pieces of one character each.
pub open spec fn single_pieces(s: Seq<char>) -> Seq<Option<Seq<char>>> {
    s.map_values(|c: char| Some(seq![c]))
}

proof fn lemma_dashed_letters(parts: Seq<Option<Seq<char>>>, s: Seq<char>)
    ensures
        dashed(parts + single_pieces(s)) == dashed(parts) + s,
    decreases s.len(),
{
    let all = parts + single_pieces(s);
    if s.len() == 0 {
        assert(all =~= parts);
        assert(dashed(parts) + s =~= dashed(parts));
    } else {
        assert(all.drop_last() =~= parts + single_pieces(s.drop_last()));
        lemma_dashed_letters(parts, s.drop_last());
        assert(all.last() == Some(seq![s.last()]));
        assert(dashed(all) =~= dashed(parts) + s);
    }
}

/// What is left of a text between a dash or nothing and the end.
proof fn lemma_trim_known(front: Seq<char>, y: Seq<char>)
    requires
        front == seq!['-'] || front.len() == 0,
        y.len() > 0,
        y[0] != '-',
        y.last() != '-',
    ensures
        without_trailing(without_leading(front + y, '-'), '-') == y,
{
    reveal_with_fuel(without_leading, 2);
    let s = front + y;
    if front.len() == 0 {
        assert(s =~= y);
    } else {
        assert(s[0] == '-');
        assert(s.skip(1) =~= y);
    }
}

/// Pieces dashed are the id that they give, with at most a dash on either side;
/// the one at the end stands for a missing last piece.
proof fn lemma_dashed_around_id(parts: Seq<Option<Seq<char>>>) -> (front: Seq<char>)
    requires
        dashless(parts),
        id_of_parts(parts).len() > 0,
    ensures
        parts.len() > 0,
        front == seq!['-'] || front.len() == 0,
        id_of_parts(parts)[0] != '-',
        dashed(parts) == front + if parts.last() is None {
            id_of_parts(parts).push('-')
        } else {
            id_of_parts(parts)
        },
{
    let d = dashed(parts);
    lemma_dashed_form(parts);
    lemma_trim_dashes(d);
    let a: int = if d[0] == '-' {
        1
    } else {
        0
    };
    let front = d.take(a);
    let l = d.skip(a);
    let x = id_of_parts(parts);
    assert(d =~= front + l);
    assert(l[l.len() - 1] == d[d.len() - 1]);
    if parts.last() is None {
        assert(x =~= l.drop_last());
        assert(l =~= x.push('-'));
    } else {
        assert(x =~= l);
    }
    if a == 1 {
        assert(front =~= seq!['-']);
    }
    front
}

/// One missing piece and a suffix behind the pieces of an id make the id, a
/// dash and the suffix.
pub proof fn law_suffix_extends_the_id(parts: Seq<Option<Seq<char>>>, suffix: Seq<char>)
    requires
        dashless(parts),
        id_of_parts(parts).len() > 0,
        suffix.len() > 0,
        !suffix.contains('-'),
    ensures
        id_of_parts(parts.push(None) + single_pieces(suffix)) == id_of_parts(parts).push('-')
            + suffix,
{
    let more = parts.push(None);
    let x = id_of_parts(parts);
    let front = lemma_dashed_around_id(parts);
    assert(more.drop_last() =~= parts);
    assert(more[more.len() - 2] == parts.last());
    assert(dashed(more) =~= front + x.push('-'));
    lemma_dashed_letters(more, suffix);
    let y = x.push('-') + suffix;
    assert(dashed(more) + suffix =~= front + y);
    assert(y[0] == x[0]);
    assert(suffix.contains(suffix[suffix.len() - 1]));
    assert(y[y.len() - 1] == suffix[suffix.len() - 1]);
    lemma_trim_known(front, y);
}

/// The id of a variant's path, stripped, is the id of the base path, where that
/// one has an id.
pub proof fn law_variant_path_strips_to_the_base_id(p: Seq<char>)
    ensures
        derived_id(p).len() > 0 ==> base_id_of(
            derived_id(with_name(p, variant_name(p, "rft"@))),
        ) == Some(derived_id(p)),
        derived_id(p).len() > 0 ==> base_id_of(
            derived_id(with_name(p, variant_name(p, "grpo"@))),
        ) == Some(derived_id(p)),
{
    reveal_strlit("rft");
    reveal_strlit("grpo");
    reveal_strlit("-rft");
    reveal_strlit("-grpo");
    if derived_id(p).len() > 0 {
        lemma_variant_id(p, "rft"@);
        lemma_variant_id(p, "grpo"@);
        let base = derived_id(p);
        assert(base.push('-') + "rft"@ =~= base + "-rft"@);
        assert(base.push('-') + "grpo"@ =~= base + "-grpo"@);
        law_variant_id_strips(base);
    }
}

/// The id of a variant's path is the id of the base path, a dash and the suffix.
proof fn lemma_variant_id(p: Seq<char>, suffix: Seq<char>)
    requires
        derived_id(p).len() > 0,
        suffix.len() > 0,
        forall|i: int| 0 <= i < suffix.len() ==> is_id_letter(#[trigger] suffix[i]),
    ensures
        derived_id(with_name(p, variant_name(p, suffix))) == derived_id(p).push('-') + suffix,
{
    reveal_strlit("-");
    let stem = stem_or_empty(p);
    let parts = id_parts(stem);
    if file_name(p) is None {
        assert(parts =~= Seq::<Option<Seq<char>>>::empty());
        lemma_dashed_form(parts);
        lemma_trim_dashes(dashed(parts));
        assert(id_of_parts(parts).len() == 0);
    }
    lemma_variant_stem(p, suffix);
    lemma_parts_dashless(stem);
    assert(id_parts(stem + "-"@ + suffix) =~= parts.push(None) + single_pieces(suffix)) by {
        let all = stem + "-"@ + suffix;
        assert forall|i: int| 0 <= i < all.len() implies #[trigger] id_parts(all)[i] == (parts.push(
            None,
        ) + single_pieces(suffix))[i] by {
            if i < stem.len() {
                assert(all[i] == stem[i]);
            } else if i > stem.len() {
                assert(all[i] == suffix[i - stem.len() - 1]);
            }
        }
    }
    assert(!suffix.contains('-')) by {
        if suffix.contains('-') {
            let k = choose|k: int| 0 <= k < suffix.len() && suffix[k] == '-';
            assert(is_id_letter(suffix[k]));
        }
    }
    law_suffix_extends_the_id(parts, suffix);
}

/// The file name of a path is what stands behind its last separator, unless that
/// is `.` or `..`. Separators at the end do not matter, nor does a `.` there.
pub proof fn law_file_name_stands_behind_the_separator(dir: Seq<char>, name: Seq<char>)
    requires
        dir.len() == 0 || dir.last() == '/',
        name.len() > 0,
        forall|i: int| 0 <= i < name.len() ==> #[trigger] name[i] != '/',
    ensures
        name != seq!['.'] && name != seq!['.', '.'] ==> file_name(dir + name) == Some(name),
        name == seq!['.', '.'] ==> file_name(dir + name) is None,
        file_name((dir + name).push('/')) == file_name(dir + name),
        file_name((dir + name).push('/').push('.')) == file_name(dir + name),
        dir.len() > 0 ==> file_name(dir.push('.')) == file_name(dir),
{
    let q = dir + name;
    lemma_name_start(dir, name);
    assert(q.skip(dir.len() as int) =~= name);
    assert(q.last() == name.last());
    assert(name[name.len() - 1] != '/');
    assert(seq!['.'].len() == 1 && seq!['.', '.'].len() == 2);
    if name != seq!['.'] {
        if name.len() > 1 {
            assert(q[q.len() - 2] == name[name.len() - 2]);
            assert(name[name.len() - 2] != '/');
        } else {
            assert(name =~= seq![name[0]]);
            assert(name[0] != '.');
        }
        assert(path_trimmed(q) == q);
    }
    assert(q.push('/').drop_last() =~= q);
    assert(path_trimmed(q.push('/')) == path_trimmed(q));
    let r = q.push('/').push('.');
    assert(r.drop_last() =~= q.push('/'));
    assert(r.last() == '.' && r[r.len() - 2] == '/');
    assert(path_trimmed(r) == path_trimmed(q.push('/')));
    if dir.len() > 0 {
        let s = dir.push('.');
        assert(s.drop_last() =~= dir);
        assert(s.last() == '.' && s[s.len() - 2] == '/');
        assert(path_trimmed(s) == path_trimmed(dir));
    }
}

/// The extension of a file name is what stands behind its last `.`, unless that
/// is its first character, and the stem what stands before it.
pub proof fn law_extension_stands_behind_the_last_dot(stem: Seq<char>, ext: Seq<char>)
    requires
        forall|i: int| 0 <= i < ext.len() ==> #[trigger] ext[i] != '.',
    ensures
        stem.len() > 0 ==> stem_of(stem.push('.') + ext) == stem,
        stem.len() > 0 ==> extension_of(stem.push('.') + ext) == Some(ext),
        stem_of(seq!['.'] + ext) == seq!['.'] + ext,
        extension_of(seq!['.'] + ext) is None,
        stem_of(ext) == ext,
        extension_of(ext) is None,
{
    let n = stem.push('.') + ext;
    lemma_last_dot_at(stem, ext);
    assert(n.take(stem.len() as int) =~= stem);
    assert(n.skip(stem.len() as int + 1) =~= ext);
    lemma_last_dot_at(Seq::empty(), ext);
    assert(Seq::<char>::empty().push('.') + ext =~= seq!['.'] + ext);
    lemma_no_dot_behind_last(ext);
    if last_dot(ext) >= 0 {
        lemma_last_dot_is_a_dot(ext);
    }
}

proof fn lemma_last_dot_is_a_dot(n: Seq<char>)
    requires
        last_dot(n) >= 0,
    ensures
        last_dot(n) < n.len(),
        n[last_dot(n)] == '.',
    decreases n.len(),
{
    if n.last() != '.' {
        lemma_last_dot_is_a_dot(n.drop_last());
    }
}

/// The variant of a model stands beside it: the same directory, the stem with a
/// dash and the suffix, and the same extension, or `bin` where there is none.
pub proof fn law_variant_stands_beside_the_base(
    dir: Seq<char>,
    stem: Seq<char>,
    ext: Seq<char>,
    suffix: Seq<char>,
)
    requires
        dir.len() == 0 || (dir.last() != '/' && dir.last() != '.') || dir == seq!['.'],
        stem.len() > 0,
        forall|i: int| 0 <= i < stem.len() ==> #[trigger] stem[i] != '/' && stem[i] != '.',
        forall|i: int| 0 <= i < ext.len() ==> #[trigger] ext[i] != '/' && ext[i] != '.',
    ensures
        ({
            let at = if dir.len() == 0 {
                dir
            } else {
                dir.push('/')
            };
            let base = at + stem + "."@ + ext;
            let bare = at + stem;
            &&& with_name(base, variant_name(base, suffix)) == at + stem + "-"@ + suffix + "."@
                + ext
            &&& with_name(bare, variant_name(bare, suffix)) == at + stem + "-"@ + suffix
                + ".bin"@
            &&& with_name(seq!['/'] + stem, variant_name(seq!['/'] + stem, suffix)) == seq!['/']
                + stem + "-"@ + suffix + ".bin"@
        }),
{
    reveal_strlit(".");
    reveal_strlit("-");
    reveal_strlit("bin");
    reveal_strlit(".bin");
    let at = if dir.len() == 0 {
        dir
    } else {
        dir.push('/')
    };
    let name = stem.push('.') + ext;
    assert forall|i: int| 0 <= i < name.len() implies #[trigger] name[i] != '/' by {
        if i < stem.len() {
            assert(name[i] == stem[i]);
        } else if i > stem.len() {
            assert(name[i] == ext[i - stem.len() - 1]);
        }
    }
    assert(seq!['.'].len() == 1 && seq!['.', '.'].len() == 2);
    assert(stem[0] != '.');
    assert(name[0] == stem[0]);
    assert(name != seq!['.'] && name != seq!['.', '.'] && stem != seq!['.'] && stem != seq![
        '.',
        '.',
    ]) by {
        assert(seq!['.'][0] == '.' && seq!['.', '.'][0] == '.');
    }
    law_extension_stands_behind_the_last_dot(stem, ext);
    assert forall|i: int| 0 <= i < stem.len() implies #[trigger] stem[i] != '.' by {}
    law_extension_stands_behind_the_last_dot(stem, stem);
    lemma_beside(at, dir, name);
    lemma_beside(at, dir, stem);
    lemma_beside(seq!['/'], seq!['/'], stem);
    let base = at + stem + "."@ + ext;
    assert(base =~= at + name);
    assert(variant_name(base, suffix) =~= stem + "-"@ + suffix + "."@ + ext);
    assert(variant_name(at + stem, suffix) =~= stem + "-"@ + suffix + ".bin"@);
    assert(variant_name(seq!['/'] + stem, suffix) =~= stem + "-"@ + suffix + ".bin"@);
    assert(at + (stem + "-"@ + suffix + "."@ + ext) =~= at + stem + "-"@ + suffix + "."@ + ext);
    assert(at + (stem + "-"@ + suffix + ".bin"@) =~= at + stem + "-"@ + suffix + ".bin"@);
    assert(seq!['/'] + (stem + "-"@ + suffix + ".bin"@) =~= seq!['/'] + stem + "-"@ + suffix
        + ".bin"@);
}

/// Replacing the file name of a path replaces what stands behind the directory.
proof fn lemma_beside(at: Seq<char>, dir: Seq<char>, name: Seq<char>)
    requires
        at == (if dir.len() == 0 || dir.last() == '/' {
            dir
        } else {
            dir.push('/')
        }),
        path_trimmed(dir) == dir || dir.len() == 0,
        dir.len() > 0 && dir.last() == '/' ==> dir == seq!['/'],
        dir.len() == 0 || dir == seq!['/'] || (dir.last() != '/' && dir.last() != '.') || dir
            == seq!['.'],
        name.len() > 0,
        forall|i: int| 0 <= i < name.len() ==> #[trigger] name[i] != '/',
        name[0] != '.',
    ensures
        file_name(at + name) == Some(name),
        forall|new: Seq<char>| #[trigger] with_name(at + name, new) == at + new,
{
    let q = at + name;
    assert(seq!['.'].len() == 1 && seq!['.', '.'].len() == 2);
    assert(seq!['.'][0] == '.' && seq!['.', '.'][0] == '.');
    law_file_name_stands_behind_the_separator(at, name);
    lemma_name_start(at, name);
    assert(path_trimmed(q) == q) by {
        assert(q.last() == name.last());
        assert(name[name.len() - 1] != '/');
        if name.len() > 1 {
            assert(q[q.len() - 2] == name[name.len() - 2]);
            assert(name[name.len() - 2] != '/');
        } else {
            assert(q.last() == name[0]);
        }
    }
    assert(q.take(at.len() as int) =~= at);
    assert(path_trimmed(at) == dir) by {
        if dir.len() > 0 && dir.last() != '/' {
            assert(at.drop_last() =~= dir);
            assert(at.last() == '/');
        }
    }
    assert forall|new: Seq<char>| #[trigger] with_name(q, new) == at + new by {
        assert(parent(q) == dir);
    }
}

/// An ASCII character is kept in an id exactly where it is a letter or a digit,
/// and it is kept as it is, but for a capital, which becomes its small letter.
pub proof fn law_ascii_letters_are_kept_small(c: char)
    requires
        c <= '\u{7f}',
    ensures
        kept_in_id(c) <==> '0' <= c <= '9' || 'a' <= c <= 'z' || 'A' <= c <= 'Z',
        'A' <= c <= 'Z' ==> small(c).len() == 1 && small(c)[0] as int == c as int + 32,
        !('A' <= c <= 'Z') ==> small(c) == seq![c],
{
}

/// The id of two names with something between them that is neither letter nor
/// number is the id of the one, a dash, and the id of the other; and how much
/// stands between them does not matter.
pub proof fn law_ids_are_joined_by_dashes(a: Seq<char>, c: char, d: char, b: Seq<char>)
    requires
        !kept_in_id(c),
        !kept_in_id(d),
    ensures
        id_of_parts(id_parts(a)).len() > 0 && id_of_parts(id_parts(b)).len() > 0 ==> id_of_parts(
            id_parts(a.push(c) + b),
        ) == id_of_parts(id_parts(a)).push('-') + id_of_parts(id_parts(b)),
        id_of_parts(id_parts(a.push(c).push(d) + b)) == id_of_parts(id_parts(a.push(c) + b)),
{
    lemma_parts_dashless(a);
    lemma_parts_dashless(b);
    let x = id_parts(a);
    let y = id_parts(b);
    assert(id_parts(a.push(c) + b) =~= x.push(None) + y);
    assert(id_parts(a.push(c).push(d) + b) =~= x.push(None).push(None) + y);
    lemma_dashed_behind_gap(x, y);
    lemma_dashed_behind_gap(x.push(None), y);
    assert(x.push(None).push(None).drop_last() =~= x.push(None));
    assert(x.push(None).drop_last() =~= x);
    assert(dashed(x.push(None).push(None)) == dashed(x.push(None)));
    if id_of_parts(x).len() > 0 && id_of_parts(y).len() > 0 {
        let front = lemma_dashed_around_id(x);
        let back = lemma_dashed_around_id(y);
        let i = id_of_parts(x);
        let j = id_of_parts(y);
        assert(x.push(None)[x.len() - 1] == x.last());
        assert(dashed(x.push(None)) =~= front + i.push('-'));
        lemma_dashed_form(y);
        let rest = if y[0] is None {
            dashed(y).skip(1)
        } else {
            dashed(y)
        };
        lemma_first_dash(y);
        let tail = if y.last() is None {
            j.push('-')
        } else {
            j
        };
        assert(rest =~= tail) by {
            assert(dashed(y) =~= back + tail);
            if back.len() == 0 {
                assert(dashed(y)[0] == tail[0]);
            } else {
                assert(dashed(y)[0] == '-');
            }
        }
        let all = dashed(x.push(None)) + rest;
        lemma_plain_ends(x);
        lemma_plain_ends(y);
        assert(dashed(x.push(None) + y) == all);
        let whole = i.push('-') + j;
        if y.last() is None {
            assert(all =~= front + whole + seq!['-']);
            lemma_trim_both(front, whole, seq!['-']);
        } else {
            assert(all =~= front + whole + Seq::<char>::empty());
            lemma_trim_both(front, whole, Seq::empty());
        }
    }
}

/// The ends of an id are no dashes.
proof fn lemma_plain_ends(parts: Seq<Option<Seq<char>>>)
    requires
        dashless(parts),
        id_of_parts(parts).len() > 0,
    ensures
        id_of_parts(parts)[0] != '-',
        id_of_parts(parts).last() != '-',
{
    lemma_dashed_form(parts);
    lemma_trim_dashes(dashed(parts));
}

/// Pieces dashed begin with a dash exactly where the first piece is missing.
proof fn lemma_first_dash(parts: Seq<Option<Seq<char>>>)
    requires
        dashless(parts),
        parts.len() > 0,
    ensures
        dashed(parts).len() > 0,
        dashed(parts)[0] == '-' <==> parts[0] is None,
    decreases parts.len(),
{
    let rest = parts.drop_last();
    assert forall|i: int| 0 <= i < rest.len() implies ((#[trigger] rest[i]) matches Some(t)
        ==> t.len() > 0 && !t.contains('-')) by {
        assert(rest[i] == parts[i]);
    }
    lemma_dashed_form(parts);
    if rest.len() > 0 {
        lemma_first_dash(rest);
        assert(dashed(parts)[0] == dashed(rest)[0]);
    } else {
        assert(dashed(rest).len() == 0);
        if let Some(t) = parts[0] {
            assert(t.contains(t[0]));
            assert(dashed(parts)[0] == t[0]);
        }
    }
}

/// Behind a missing piece, the dash of further missing ones does not count again.
proof fn lemma_dashed_behind_gap(x: Seq<Option<Seq<char>>>, y: Seq<Option<Seq<char>>>)
    ensures
        dashed(x.push(None) + y) == dashed(x.push(None)) + if y.len() > 0 && y[0] is None {
            dashed(y).skip(1)
        } else {
            dashed(y)
        },
    decreases y.len(),
{
    let a = x.push(None);
    let all = a + y;
    if y.len() == 0 {
        assert(all =~= a);
        assert(dashed(a) + dashed(y) =~= dashed(a));
    } else {
        let z = y.drop_last();
        lemma_dashed_behind_gap(x, z);
        assert(all.drop_last() =~= a + z);
        assert(all.last() == y.last());
        if z.len() > 0 {
            assert(z[0] == y[0]);
            assert(all[all.len() - 2] == y[y.len() - 2]);
            lemma_dashed_nonempty(z);
        } else {
            assert(all[all.len() - 2] == a.last());
            assert(dashed(z).len() == 0);
        }
        let d = dashed(z);
        match y.last() {
            Some(t) => {
                assert(dashed(all) =~= dashed(a) + if y[0] is None {
                    dashed(y).skip(1)
                } else {
                    dashed(y)
                });
            },
            None => {
                assert(dashed(all) =~= dashed(a) + if y[0] is None {
                    dashed(y).skip(1)
                } else {
                    dashed(y)
                });
            },
        }
    }
}

proof fn lemma_dashed_nonempty(parts: Seq<Option<Seq<char>>>)
    requires
        parts.len() > 0,
    ensures
        parts[0] is None ==> dashed(parts).len() > 0,
    decreases parts.len(),
{
    if parts.len() > 1 {
        assert(parts.drop_last()[0] == parts[0]);
        lemma_dashed_nonempty(parts.drop_last());
    }
}

/// What is left of a text between dashes or nothing on either side.
proof fn lemma_trim_both(front: Seq<char>, y: Seq<char>, back: Seq<char>)
    requires
        front == seq!['-'] || front.len() == 0,
        back == seq!['-'] || back.len() == 0,
        y.len() > 0,
        y[0] != '-',
        y.last() != '-',
    ensures
        without_trailing(without_leading(front + y + back, '-'), '-') == y,
{
    reveal_with_fuel(without_leading, 2);
    reveal_with_fuel(without_trailing, 2);
    let s = front + y + back;
    let t = y + back;
    if front.len() == 0 {
        assert(s =~= t);
    } else {
        assert(s[0] == '-');
        assert(s.skip(1) =~= t);
    }
    assert(t[0] == y[0]);
    assert(without_leading(s, '-') == t);
    if back.len() == 0 {
        assert(t =~= y);
    } else {
        assert(t.drop_last() =~= y);
        assert(t.last() == '-');
    }
}

} // verus!
