//! Slash-separated paths: their segments, their last name, and how many components they have.

use vstd::prelude::*;
use vstd::string::StringExecFns;

use crate::text::{chars_of, text_of};

verus! {

/// The pieces of `s` between the separators.
pub open spec fn segments<A>(s: Seq<A>, sep: A) -> Seq<Seq<A>>
    decreases s.len(),
{
    if s.len() == 0 {
        seq![Seq::empty()]
    } else {
        let before = segments(s.drop_last(), sep);
        if s.last() == sep {
            before.push(Seq::empty())
        } else {
            before.drop_last().push(before.last().push(s.last()))
        }
    }
}

/// There is always at least one piece.
pub proof fn lemma_segments_nonempty<A>(s: Seq<A>, sep: A)
    ensures
        segments(s, sep).len() >= 1,
    decreases s.len(),
{
    if s.len() > 0 {
        lemma_segments_nonempty(s.drop_last(), sep);
    }
}

/// Whether a piece of a byte path is a component: it is neither empty nor a lone dot.
pub open spec fn is_component(piece: Seq<u8>) -> bool {
    piece.len() > 0 && piece != seq![0x2Eu8]
}

/// How many pieces are components.
pub open spec fn count_components(pieces: Seq<Seq<u8>>) -> nat
    decreases pieces.len(),
{
    if pieces.len() == 0 {
        0
    } else {
        count_components(pieces.drop_last()) + if is_component(pieces.last()) {
            1nat
        } else {
            0
        }
    }
}

/// How many components a path has: its names and `..`s, one for a leading slash, and one for a
/// leading dot. Dots further on and repeated slashes do not count.
pub open spec fn component_count(path: Seq<u8>) -> nat {
    let pieces = segments(path, 0x2F);
    let rooted = path.len() > 0 && path[0] == 0x2F;
    let dotted = pieces[0] == seq![0x2Eu8];
    count_components(pieces) + if rooted || dotted {
        1nat
    } else {
        0
    }
}

/// The contents of a list of pieces.
pub open spec fn piece_views(v: Seq<Vec<u8>>) -> Seq<Seq<u8>> {
    Seq::new(v.len(), |i: int| v[i]@)
}

/// The pieces of `path` between the separators.
pub fn split_bytes(path: &[u8], sep: u8) -> (v: Vec<Vec<u8>>)
    ensures
        piece_views(v@) == segments(path@, sep),
        v@.len() >= 1,
{
    let mut done: Vec<Vec<u8>> = Vec::new();
    let mut cur: Vec<u8> = Vec::new();
    let mut i: usize = 0;
    assert(path@.take(0).len() == 0);
    assert(piece_views(done@).push(cur@) == segments(path@.take(0), sep));
    while i < path.len()
        invariant
            i <= path@.len(),
            piece_views(done@).push(cur@) == segments(path@.take(i as int), sep),
        decreases path@.len() - i,
    {
        let b: u8 = path[i];
        let ghost before = piece_views(done@);
        let ghost piece = cur@;
        proof {
            assert(path@.take(i + 1).drop_last() == path@.take(i as int));
            assert(before.push(piece).drop_last() == before);
        }
        if b == sep {
            done.push(cur);
            cur = Vec::new();
            assert(piece_views(done@) == before.push(piece));
        } else {
            cur.push(b);
        }
        i = i + 1;
        assert(piece_views(done@).push(cur@) == segments(path@.take(i as int), sep));
    }
    assert(path@.take(i as int) == path@);
    let ghost before = piece_views(done@);
    let ghost piece = cur@;
    done.push(cur);
    assert(piece_views(done@) == before.push(piece));
    done
}

/// Count the components of a path.
pub fn count_path_components(path: &[u8]) -> (n: usize)
    ensures
        n == component_count(path@),
{
    let pieces = split_bytes(path, 0x2F);
    let ghost all = piece_views(pieces@);
    proof {
        lemma_component_bound(path@);
    }
    let rooted = path.len() > 0 && path[0] == 0x2F;
    let first: &Vec<u8> = &pieces[0];
    let dotted = first.len() == 1 && first[0] == 0x2E;
    proof {
        if dotted {
            assert(all[0] == seq![0x2Eu8]);
        }
    }
    let mut n: usize = 0;
    let mut i: usize = 0;
    while i < pieces.len()
        invariant
            i <= pieces@.len(),
            all == piece_views(pieces@),
            n == count_components(all.take(i as int)),
            n <= i,
        decreases pieces@.len() - i,
    {
        let p: &Vec<u8> = &pieces[i];
        let counts = p.len() > 0 && !(p.len() == 1 && p[0] == 0x2E);
        proof {
            assert(all.take(i + 1).drop_last() == all.take(i as int));
            assert(all[i as int] == p@);
            if p@.len() == 1 && p@[0] == 0x2E {
                assert(p@ == seq![0x2Eu8]);
            }
            assert(counts == is_component(p@));
        }
        if counts {
            n = n + 1;
        }
        i = i + 1;
    }
    assert(all.take(i as int) == all);
    if rooted || dotted {
        n + 1
    } else {
        n
    }
}

/// Between two components stands a slash, so a path has about twice as many bytes as components.
proof fn lemma_component_bound(path: Seq<u8>)
    ensures
        segments(path, 0x2F).len() >= 1,
        is_component(segments(path, 0x2F).last()) ==> 2 * count_components(segments(path, 0x2F))
            <= path.len() + 1,
        !is_component(segments(path, 0x2F).last()) ==> 2 * count_components(segments(path, 0x2F))
            <= path.len(),
    decreases path.len(),
{
    let pieces = segments(path, 0x2F);
    if path.len() == 0 {
        assert(count_components(pieces.drop_last()) == 0);
    } else {
        let before = segments(path.drop_last(), 0x2F);
        lemma_component_bound(path.drop_last());
        if path.last() == 0x2F {
            assert(pieces.drop_last() == before);
        } else {
            assert(pieces.drop_last() == before.drop_last());
            let (short, long) = (before.last(), pieces.last());
            assert(long == short.push(path.last()));
            if is_component(short) && !is_component(long) {
                assert(long[0] == short[0] && long.len() == 1);
            }
        }
    }
}

/// Whether a piece of a text path can be its last name: it is neither empty nor a lone dot.
pub open spec fn is_name(piece: Seq<char>) -> bool {
    piece.len() > 0 && piece != seq!['.']
}

/// The last of the pieces that is a name.
pub open spec fn last_name(pieces: Seq<Seq<char>>) -> Option<Seq<char>>
    decreases pieces.len(),
{
    if pieces.len() == 0 {
        None
    } else if is_name(pieces.last()) {
        Some(pieces.last())
    } else {
        last_name(pieces.drop_last())
    }
}

/// The last name of a path (trailing slashes and dots do not count); the whole path where it has
/// none, or where it ends in `..`.
pub open spec fn base_of(path: Seq<char>) -> Seq<char> {
    match last_name(segments(path, '/')) {
        Some(name) => if name == seq!['.', '.'] {
            path
        } else {
            name
        },
        None => path,
    }
}

/// The last path component of `path` (e.g. `boot.img.lz4`), used to recognise archive and `.lz4`
/// suffixes and to match a partition by its expected file name.
pub fn basename(path: &str) -> (s: String)
    ensures
        s@ == base_of(path@),
{
    let chars = chars_of(path);
    let mut end: usize = chars.len();
    let ghost all = path@;
    proof {
        assert(all.take(end as int) == all);
    }
    // `end` is where the piece under consideration ends.
    loop
        invariant
            chars@ == path@,
            all == path@,
            end <= chars@.len(),
            last_name(segments(path@, '/')) == last_name(segments(all.take(end as int), '/')),
        decreases end,
    {
        let mut start: usize = end;
        while start > 0 && chars[start - 1] != '/'
            invariant
                chars@ == path@,
                start <= end <= chars@.len(),
                forall|j: int| start <= j < end ==> chars@[j] != '/',
            decreases start,
        {
            start = start - 1;
        }
        let dot = end - start == 1 && chars[start] == '.';
        let ghost piece = all.subrange(start as int, end as int);
        proof {
            lemma_last_segment(all.take(end as int), start as int);
            assert(all.take(end as int).subrange(start as int, end as int) == piece);
            if dot {
                assert(piece == seq!['.']);
            }
        }
        if end - start > 0 && !dot {
            assert(is_name(piece)) by {
                if piece == seq!['.'] {
                    assert(piece[0] == '.');
                }
            }
            if end - start == 2 && chars[start] == '.' && chars[start + 1] == '.' {
                assert(piece == seq!['.', '.']);
                return String::from_str(path);
            }
            assert(piece != seq!['.', '.']) by {
                if piece == seq!['.', '.'] {
                    assert(piece[0] == '.' && piece[1] == '.');
                }
            }
            return text_of(&chars, start, end);
        }
        if start == 0 {
            proof {
                let pieces = segments(all.take(end as int), '/');
                assert(pieces.last() == piece && !is_name(piece));
                assert(last_name(pieces.drop_last()) is None);
            }
            return String::from_str(path);
        }
        proof {
            assert(segments(all.take(end as int), '/').drop_last() == segments(
                all.take(start - 1),
                '/',
            )) by {
                assert(all.take(end as int).take(start - 1) == all.take(start - 1));
            }
        }
        end = start - 1;
    }
}

/// The last piece of `s` is what stands behind its last slash.
proof fn lemma_last_segment(s: Seq<char>, start: int)
    requires
        0 <= start <= s.len(),
        start > 0 ==> s[start - 1] == '/',
        forall|j: int| start <= j < s.len() ==> s[j] != '/',
    ensures
        segments(s, '/').len() >= 1,
        segments(s, '/').last() == s.subrange(start, s.len() as int),
        start == 0 ==> segments(s, '/').len() == 1,
        start > 0 ==> segments(s, '/').drop_last() == segments(s.take(start - 1), '/'),
    decreases s.len(),
{
    lemma_segments_nonempty(s, '/');
    if s.len() == 0 {
        assert(s.subrange(0, 0) == Seq::<char>::empty());
    } else if start == s.len() {
        assert(s.drop_last() == s.take(start - 1));
        assert(s.subrange(start, s.len() as int) == Seq::<char>::empty());
        assert(segments(s, '/').drop_last() == segments(s.take(start - 1), '/'));
    } else {
        let t = s.drop_last();
        lemma_last_segment(t, start);
        let before = segments(t, '/');
        assert(segments(s, '/') == before.drop_last().push(before.last().push(s.last())));
        assert(s.subrange(start, s.len() as int) == t.subrange(start, t.len() as int).push(s.last()));
        assert(segments(s, '/').drop_last() == before.drop_last());
        if start > 0 {
            assert(t.take(start - 1) == s.take(start - 1));
        }
    }
}

/// A piece without a separator, behind a separator, is one more piece.
proof fn lemma_one_more_segment<A>(a: Seq<A>, b: Seq<A>, sep: A)
    requires
        !b.contains(sep),
    ensures
        segments(a.push(sep) + b, sep) == segments(a, sep).push(b),
    decreases b.len(),
{
    let s = a.push(sep) + b;
    if b.len() == 0 {
        assert(s == a.push(sep));
        assert(s.drop_last() == a);
        assert(b == Seq::<A>::empty());
    } else {
        let short = b.drop_last();
        assert(s.drop_last() == a.push(sep) + short);
        assert(b.contains(b[b.len() - 1]));
        assert forall|x: A| short.contains(x) implies b.contains(x) by {
            let i = choose|i: int| 0 <= i < short.len() && short[i] == x;
            assert(b[i] == x);
        }
        lemma_one_more_segment(a, short, sep);
        let before = segments(a, sep).push(short);
        assert(before.drop_last() == segments(a, sep));
        assert(short.push(b.last()) == b);
        assert(s.last() == b.last());
    }
}

proof fn lemma_one_segment<A>(s: Seq<A>, sep: A)
    requires
        !s.contains(sep),
    ensures
        segments(s, sep) == seq![s],
    decreases s.len(),
{
    if s.len() > 0 {
        let short = s.drop_last();
        assert(s.contains(s[s.len() - 1]));
        assert forall|x: A| short.contains(x) implies s.contains(x) by {
            let i = choose|i: int| 0 <= i < short.len() && short[i] == x;
            assert(s[i] == x);
        }
        lemma_one_segment(short, sep);
        assert(seq![short].drop_last() == Seq::<Seq<A>>::empty());
        assert(short.push(s.last()) == s);
        assert(Seq::<Seq<A>>::empty().push(s) == seq![s]);
    } else {
        assert(s == Seq::<A>::empty());
    }
}

/// The base name of a path is the name it ends with, whatever directory stands before it; a slash
/// behind it, or a lone dot behind that, changes nothing.
pub proof fn law_base_name_is_the_last_name(dir: Seq<char>, name: Seq<char>)
    requires
        name.len() > 0,
        !name.contains('/'),
        name != seq!['.'],
        name != seq!['.', '.'],
    ensures
        base_of(name) == name,
        base_of(dir + seq!['/'] + name) == name,
        base_of(dir + seq!['/'] + name + seq!['/']) == name,
        base_of(dir + seq!['/'] + name + seq!['/', '.']) == name,
{
    let none = Seq::<char>::empty();
    lemma_one_segment(name, '/');
    assert(seq![name].last() == name);
    let path = dir + seq!['/'] + name;
    lemma_one_more_segment(dir, name, '/');
    assert(path == dir.push('/') + name);
    assert(segments(path, '/').last() == name);
    lemma_one_more_segment(path, none, '/');
    assert(path + seq!['/'] == path.push('/') + none);
    assert(segments(path, '/').push(none).drop_last() == segments(path, '/'));
    let dot = seq!['.'];
    assert(!dot.contains('/'));
    lemma_one_more_segment(path, dot, '/');
    assert(path + seq!['/', '.'] == path.push('/') + dot);
    assert(segments(path, '/').push(dot).drop_last() == segments(path, '/'));
}

/// A path that ends in `..`, and one without a name, is its own base name.
pub proof fn law_nameless_paths_stand_for_themselves(dir: Seq<char>)
    ensures
        base_of(seq!['.', '.']) == seq!['.', '.'],
        base_of(dir + seq!['/', '.', '.']) == dir + seq!['/', '.', '.'],
        base_of(Seq::empty()) == Seq::<char>::empty(),
        base_of(seq!['/']) == seq!['/'],
        base_of(seq!['.']) == seq!['.'],
{
    let up = seq!['.', '.'];
    assert(!up.contains('/'));
    lemma_one_segment(up, '/');
    assert(seq![up].last() == up);
    assert(up != seq!['.']) by {
        assert(up.len() == 2);
    }
    lemma_one_more_segment(dir, up, '/');
    assert(dir + seq!['/', '.', '.'] == dir.push('/') + up);
    assert(segments(dir, '/').push(up).last() == up);
    let none = Seq::<char>::empty();
    lemma_one_segment(none, '/');
    assert(seq![none].drop_last() == Seq::<Seq<char>>::empty());
    lemma_one_more_segment(none, none, '/');
    assert(seq!['/'] == none.push('/') + none);
    assert(seq![none].push(none).drop_last() == seq![none]);
    let dot = seq!['.'];
    assert(!dot.contains('/'));
    lemma_one_segment(dot, '/');
    assert(seq![dot].drop_last() == Seq::<Seq<char>>::empty());
    reveal_with_fuel(last_name, 3);
}

/// A plain name is one component, and a name behind a path is one more than the path has; a slash
/// behind a path, or a lone dot behind that, is none. A leading slash is one.
pub proof fn law_components_are_counted(path: Seq<u8>, name: Seq<u8>)
    requires
        name.len() > 0,
        !name.contains(0x2F),
    ensures
        component_count(Seq::empty()) == 0,
        component_count(name) == 1,
        component_count(seq![0x2Fu8]) == 1,
        path.len() > 0 ==> component_count(path + seq![0x2Fu8]) == component_count(path),
        path.len() > 0 ==> component_count(path + seq![0x2Fu8, 0x2Eu8]) == component_count(path),
        path.len() > 0 && name != seq![0x2Eu8] ==> component_count(path + seq![0x2Fu8] + name)
            == component_count(path) + 1,
{
    let none = Seq::<u8>::empty();
    let dot = seq![0x2Eu8];
    let sep = 0x2Fu8;
    lemma_segments_nonempty(path, sep);
    lemma_one_segment(none, sep);
    lemma_one_segment(name, sep);
    assert(seq![none].drop_last() == Seq::<Seq<u8>>::empty());
    assert(seq![name].drop_last() == Seq::<Seq<u8>>::empty());
    reveal_with_fuel(count_components, 3);
    assert(name.contains(name[0]));
    assert(none != dot) by {
        assert(dot.len() == 1);
    }
    lemma_one_more_segment(none, none, sep);
    assert(seq![sep] == none.push(sep) + none);
    assert(seq![none].push(none).drop_last() == seq![none]);
    let pieces = segments(path, sep);
    lemma_one_more_segment(path, none, sep);
    assert(path + seq![sep] == path.push(sep) + none);
    assert(pieces.push(none).drop_last() == pieces);
    assert(!dot.contains(sep));
    lemma_one_more_segment(path, dot, sep);
    assert(path + seq![sep, 0x2Eu8] == path.push(sep) + dot);
    assert(pieces.push(dot).drop_last() == pieces);
    lemma_one_more_segment(path, name, sep);
    assert(path + seq![sep] + name == path.push(sep) + name);
    assert(pieces.push(name).drop_last() == pieces);
}

/// A piece without a separator, before a separator, comes before the pieces behind it.
pub proof fn lemma_first_segment<A>(a: Seq<A>, b: Seq<A>, sep: A)
    requires
        !a.contains(sep),
    ensures
        segments(a.push(sep) + b, sep) == seq![a] + segments(b, sep),
    decreases b.len(),
{
    let s = a.push(sep) + b;
    lemma_segments_nonempty(b, sep);
    if b.len() == 0 {
        lemma_one_segment(a, sep);
        assert(s == a.push(sep));
        assert(s.drop_last() == a);
        assert(seq![a].push(Seq::empty()) == seq![a] + seq![Seq::<A>::empty()]);
    } else {
        let short = b.drop_last();
        assert(s.drop_last() == a.push(sep) + short);
        lemma_first_segment(a, short, sep);
        lemma_segments_nonempty(short, sep);
        let before = segments(short, sep);
        let all = seq![a] + before;
        assert(s.last() == b.last());
        if b.last() == sep {
            assert(all.push(Seq::empty()) == seq![a] + before.push(Seq::empty()));
        } else {
            let piece = before.last().push(b.last());
            assert(all.last() == before.last());
            assert(all.drop_last().push(piece) == seq![a] + before.drop_last().push(piece));
        }
    }
}

} // verus!
