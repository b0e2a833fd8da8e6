//! Splitting a request's host name and path into the parts that address
//! content on the network.
use vstd::prelude::*;
use crate::text::{ends_with, push_char, str_ends_with};
use crate::xor::{first_two_parts, is_xor_text, XorHelper};

verus! {

/// The pieces of `s` between occurrences of `sep` (`s.split(sep)`): always one
/// more piece than there are separators, empty pieces included.
pub open spec fn split_pieces(s: Seq<char>, sep: char) -> Seq<Seq<char>>
    decreases s.len(),
{
    if s.len() == 0 {
        seq![Seq::empty()]
    } else {
        let prev = split_pieces(s.drop_last(), sep);
        if s.last() == sep {
            prev.push(Seq::empty())
        } else {
            prev.update(prev.len() - 1, prev.last().push(s.last()))
        }
    }
}

/// The parts that are not empty, in order.
pub open spec fn non_empty(parts: Seq<Seq<char>>) -> Seq<Seq<char>>
    decreases parts.len(),
{
    if parts.len() == 0 {
        parts
    } else if parts.last().len() > 0 {
        non_empty(parts.drop_last()).push(parts.last())
    } else {
        non_empty(parts.drop_last())
    }
}

/// The segments of a request path: its pieces between `/`, empty ones left out.
pub open spec fn path_segments(path: Seq<char>) -> Seq<Seq<char>> {
    non_empty(split_pieces(path, '/'))
}

/// The subdomain of a host `<sub>.autonomi`: everything before `.autonomi`.
pub open spec fn autonomi_subdomain(hostname: Seq<char>) -> Seq<char> {
    hostname.subrange(0, hostname.len() - 9)
}

/// The parts of a request: for a host `<sub>.autonomi` the subdomain as one
/// part, for a host that is a XOR address the host itself, and then the
/// path's segments.
pub open spec fn request_parts(hostname: Seq<char>, path: Seq<char>) -> Seq<Seq<char>> {
    if ends_with(hostname, ".autonomi"@) {
        seq![autonomi_subdomain(hostname)] + path_segments(path)
    } else if is_xor_text(hostname) {
        seq![hostname] + path_segments(path)
    } else {
        path_segments(path)
    }
}

proof fn lemma_split_pieces_len(s: Seq<char>, sep: char)
    ensures
        split_pieces(s, sep).len() >= 1,
    decreases s.len(),
{
    if s.len() > 0 {
        lemma_split_pieces_len(s.drop_last(), sep);
    }
}

/// Splits `s` at every `sep`.
pub fn split_on(s: &str, sep: char) -> (r: Vec<String>)
    ensures
        r.deep_view() == split_pieces(s@, sep),
{
    let n = s.unicode_len();
    let mut done: Vec<String> = Vec::new();
    let mut cur = String::new();
    let mut i: usize = 0;
    assert(s@.subrange(0, 0) =~= Seq::<char>::empty());
    assert(done.deep_view().push(cur@) =~= split_pieces(s@.subrange(0, 0), sep));
    while i < n
        invariant
            n == s@.len(),
            i <= n,
            done.deep_view().push(cur@) == split_pieces(s@.subrange(0, i as int), sep),
        decreases n - i,
    {
        let ghost prev = split_pieces(s@.subrange(0, i as int), sep);
        assert(s@.subrange(0, i + 1).drop_last() =~= s@.subrange(0, i as int));
        assert(s@.subrange(0, i + 1).last() == s@[i as int]);
        let c = s.get_char(i);
        if c == sep {
            done.push(cur);
            cur = String::new();
            assert(done.deep_view().push(cur@) =~= prev.push(Seq::empty()));
        } else {
            push_char(&mut cur, c);
            assert(done.deep_view().push(cur@) =~= prev.update(prev.len() - 1, prev.last().push(c)));
        }
        i = i + 1;
    }
    assert(s@.subrange(0, n as int) =~= s@);
    done.push(cur);
    done
}

/// The parts of `s` between `/` that are not empty.
pub fn path_segments_of(s: &str) -> (r: Vec<String>)
    ensures
        r.deep_view() == path_segments(s@),
{
    let pieces = split_on(s, '/');
    let ghost all = pieces.deep_view();
    let mut out: Vec<String> = Vec::new();
    let mut i: usize = 0;
    let n = pieces.len();
    while i < n
        invariant
            n == pieces.len(),
            all == pieces.deep_view(),
            i <= n,
            out.deep_view() == non_empty(all.subrange(0, i as int)),
        decreases n - i,
    {
        assert(all.subrange(0, i + 1).drop_last() =~= all.subrange(0, i as int));
        assert(all.subrange(0, i + 1).last() == pieces[i as int]@);
        if pieces[i].as_str().unicode_len() > 0 {
            let ghost before = out.deep_view();
            out.push(pieces[i].clone());
            assert(out.deep_view() =~= before.push(pieces[i as int]@));
        }
        i = i + 1;
    }
    assert(all.subrange(0, n as int) =~= all);
    out
}

/// Appends every part of `more` to `parts`.
fn extend_parts(parts: &mut Vec<String>, more: Vec<String>)
    ensures
        final(parts).deep_view() == old(parts).deep_view() + more.deep_view(),
{
    let ghost start = parts.deep_view();
    let mut i: usize = 0;
    while i < more.len()
        invariant
            i <= more.len(),
            parts.deep_view() == start + more.deep_view().subrange(0, i as int),
        decreases more.len() - i,
    {
        let ghost before = parts.deep_view();
        parts.push(more[i].clone());
        assert(parts.deep_view() =~= before.push(more[i as int]@));
        assert(more.deep_view().subrange(0, i + 1) =~= more.deep_view().subrange(0, i as int).push(more[i as int]@));
        assert(parts.deep_view() =~= start + more.deep_view().subrange(0, i + 1));
        i = i + 1;
    }
    assert(more.deep_view().subrange(0, more.len() as int) =~= more.deep_view());
}

/// Parses a host name and path into the parts that address content.
pub fn get_path_parts(hostname: &str, path: &str) -> (r: Vec<String>)
    ensures
        r.deep_view() == request_parts(hostname@, path@),
{
    let xor_helper = XorHelper::new();
    if str_ends_with(hostname, ".autonomi") {
        proof {
            reveal_strlit(".autonomi");
        }
        let n = hostname.unicode_len();
        let subdomain = hostname.substring_char(0, n - 9);
        let mut parts: Vec<String> = Vec::new();
        parts.push(String::from_str(subdomain));
        let path_parts = path_segments_of(path);
        extend_parts(&mut parts, path_parts);
        assert(parts.deep_view() =~= seq![autonomi_subdomain(hostname@)] + path_segments(path@));
        parts
    } else if xor_helper.is_xor(&String::from_str(hostname)) {
        let mut parts: Vec<String> = Vec::new();
        parts.push(String::from_str(hostname));
        let path_parts = path_segments_of(path);
        extend_parts(&mut parts, path_parts);
        assert(parts.deep_view() =~= seq![hostname@] + path_segments(path@));
        parts
    } else {
        path_segments_of(path)
    }
}

/// No piece of a split holds the separator.
proof fn lemma_split_pieces_free_of(s: Seq<char>, sep: char)
    ensures
        forall|i: int, j: int|
            0 <= i < split_pieces(s, sep).len() && 0 <= j < split_pieces(s, sep)[i].len()
                ==> #[trigger] split_pieces(s, sep)[i][j] != sep,
    decreases s.len(),
{
    if s.len() > 0 {
        lemma_split_pieces_free_of(s.drop_last(), sep);
        lemma_split_pieces_len(s.drop_last(), sep);
        let prev = split_pieces(s.drop_last(), sep);
        let cur = split_pieces(s, sep);
        assert forall|i: int, j: int| 0 <= i < cur.len() && 0 <= j < cur[i].len() implies #[trigger] cur[i][j] != sep by {
            if s.last() != sep && i == prev.len() - 1 {
                if j < prev.last().len() {
                    assert(cur[i][j] == prev[i][j]);
                }
            } else if i < prev.len() {
                assert(cur[i] == prev[i]);
            }
        }
    }
}

/// What `non_empty` keeps are parts it was given, and none of them is empty.
proof fn lemma_non_empty(parts: Seq<Seq<char>>)
    ensures
        forall|i: int| 0 <= i < non_empty(parts).len() ==> (#[trigger] non_empty(parts)[i]).len() > 0,
        forall|i: int| 0 <= i < non_empty(parts).len() ==> exists|k: int| 0 <= k < parts.len() && parts[k] == #[trigger] non_empty(parts)[i],
    decreases parts.len(),
{
    if parts.len() > 0 {
        lemma_non_empty(parts.drop_last());
        let prev = non_empty(parts.drop_last());
        assert forall|i: int| 0 <= i < non_empty(parts).len() implies exists|k: int| 0 <= k < parts.len() && parts[k] == #[trigger] non_empty(parts)[i] by {
            if i < prev.len() {
                let k = choose|k: int| 0 <= k < parts.drop_last().len() && parts.drop_last()[k] == prev[i];
                assert(parts[k] == non_empty(parts)[i]);
            } else {
                assert(parts[parts.len() - 1] == non_empty(parts)[i]);
            }
        }
    }
}

/// Every segment of a request path is non-empty and holds no `/`.
pub proof fn law_path_segments_are_clean(path: Seq<char>)
    ensures
        forall|i: int| 0 <= i < path_segments(path).len() ==> (#[trigger] path_segments(path)[i]).len() > 0,
        forall|i: int, j: int| 0 <= i < path_segments(path).len() && 0 <= j < path_segments(path)[i].len()
            ==> #[trigger] path_segments(path)[i][j] != '/',
{
    let pieces = split_pieces(path, '/');
    lemma_split_pieces_free_of(path, '/');
    lemma_non_empty(pieces);
    assert forall|i: int, j: int| 0 <= i < path_segments(path).len() && 0 <= j < path_segments(path)[i].len()
        implies #[trigger] path_segments(path)[i][j] != '/' by {
        let k = choose|k: int| 0 <= k < pieces.len() && pieces[k] == non_empty(pieces)[i];
        assert(pieces[k][j] != '/');
    }
}

/// On a host that is a XOR address (and not under `.autonomi`), the archive
/// address that a request's parts give is the host, and the file name is the
/// path's first segment (empty when it has none).
pub proof fn law_xor_host_addresses_the_archive(hostname: Seq<char>, path: Seq<char>)
    requires
        is_xor_text(hostname),
        !ends_with(hostname, ".autonomi"@),
    ensures
        first_two_parts(request_parts(hostname, path)).0 == hostname,
        first_two_parts(request_parts(hostname, path)).1 == if path_segments(path).len() > 0 {
            path_segments(path)[0]
        } else {
            Seq::<char>::empty()
        },
{
    let parts = request_parts(hostname, path);
    assert(parts[0] == hostname);
    if path_segments(path).len() > 0 {
        assert(parts[1] == path_segments(path)[0]);
    }
}

/// `path` with every `/` written twice.
pub open spec fn double_slashes(path: Seq<char>) -> Seq<char>
    decreases path.len(),
{
    if path.len() == 0 {
        path
    } else if path.last() == '/' {
        double_slashes(path.drop_last()) + seq!['/', '/']
    } else {
        double_slashes(path.drop_last()).push(path.last())
    }
}

/// Splitting a text with one more character at its end.
proof fn lemma_split_push(x: Seq<char>, c: char, sep: char)
    ensures
        split_pieces(x.push(c), sep) == if c == sep {
            split_pieces(x, sep).push(Seq::empty())
        } else {
            split_pieces(x, sep).update(split_pieces(x, sep).len() - 1, split_pieces(x, sep).last().push(c))
        },
{
    assert(x.push(c).drop_last() =~= x);
    assert(x.push(c).last() == c);
}

/// An empty part at the end is not kept.
proof fn lemma_non_empty_push_empty(parts: Seq<Seq<char>>)
    ensures
        non_empty(parts.push(Seq::empty())) == non_empty(parts),
{
    assert(parts.push(Seq::empty()).drop_last() =~= parts);
}

/// A leading separator adds one empty piece in front.
proof fn lemma_split_leading(q: Seq<char>, sep: char)
    ensures
        split_pieces(seq![sep] + q, sep) == seq![Seq::<char>::empty()] + split_pieces(q, sep),
    decreases q.len(),
{
    lemma_split_pieces_len(q, sep);
    if q.len() == 0 {
        assert(seq![sep] + q =~= Seq::<char>::empty().push(sep));
        lemma_split_push(Seq::<char>::empty(), sep, sep);
        assert(split_pieces(Seq::<char>::empty(), sep) == seq![Seq::<char>::empty()]);
        assert(split_pieces(seq![sep] + q, sep) =~= seq![Seq::<char>::empty()] + split_pieces(q, sep));
    } else {
        let x = seq![sep] + q;
        assert(x.drop_last() =~= seq![sep] + q.drop_last());
        lemma_split_leading(q.drop_last(), sep);
        lemma_split_pieces_len(q.drop_last(), sep);
        let prev = split_pieces(q.drop_last(), sep);
        if q.last() == sep {
            assert(split_pieces(x, sep) =~= seq![Seq::<char>::empty()] + split_pieces(q, sep));
        } else {
            assert(split_pieces(x, sep) =~= seq![Seq::<char>::empty()] + split_pieces(q, sep));
        }
    }
}

/// Keeping the non-empty parts of a concatenation keeps them of each side.
proof fn lemma_non_empty_concat(a: Seq<Seq<char>>, b: Seq<Seq<char>>)
    ensures
        non_empty(a + b) == non_empty(a) + non_empty(b),
    decreases b.len(),
{
    if b.len() == 0 {
        assert(a + b =~= a);
        assert(non_empty(a) + non_empty(b) =~= non_empty(a));
    } else {
        assert((a + b).drop_last() =~= a + b.drop_last());
        lemma_non_empty_concat(a, b.drop_last());
        if b.last().len() > 0 {
            assert(non_empty(a) + non_empty(b.drop_last()).push(b.last())
                =~= (non_empty(a) + non_empty(b.drop_last())).push(b.last()));
        }
    }
}

/// Doubling the slashes keeps the last piece and the non-empty pieces before it.
proof fn lemma_double_slashes_split(p: Seq<char>)
    ensures
        split_pieces(double_slashes(p), '/').last() == split_pieces(p, '/').last(),
        non_empty(split_pieces(double_slashes(p), '/').drop_last())
            == non_empty(split_pieces(p, '/').drop_last()),
    decreases p.len(),
{
    if p.len() > 0 {
        let q = p.drop_last();
        let dq = double_slashes(q);
        lemma_double_slashes_split(q);
        lemma_split_pieces_len(q, '/');
        lemma_split_pieces_len(dq, '/');
        let sq = split_pieces(q, '/');
        let sdq = split_pieces(dq, '/');
        let e = Seq::<char>::empty();
        // non_empty of a split, through its last piece
        assert(sq.drop_last().push(sq.last()) =~= sq);
        assert(sdq.drop_last().push(sdq.last()) =~= sdq);
        if p.last() == '/' {
            let d = dq + seq!['/', '/'];
            assert(d =~= dq.push('/').push('/'));
            lemma_split_push(dq, '/', '/');
            lemma_split_push(dq.push('/'), '/', '/');
            assert(p =~= q.push('/'));
            lemma_split_push(q, '/', '/');
            assert(split_pieces(d, '/') == sdq.push(e).push(e));
            assert(split_pieces(p, '/') == sq.push(e));
            lemma_non_empty_push_empty(sdq);
            assert(sdq.push(e).push(e).drop_last() =~= sdq.push(e));
            assert(sq.push(e).drop_last() =~= sq);
            assert(non_empty(sdq.push(e)) == non_empty(sdq));
        } else {
            let d = dq.push(p.last());
            lemma_split_push(dq, p.last(), '/');
            assert(p =~= q.push(p.last()));
            lemma_split_push(q, p.last(), '/');
            assert(split_pieces(d, '/') == sdq.update(sdq.len() - 1, sdq.last().push(p.last())));
            assert(sdq.update(sdq.len() - 1, sdq.last().push(p.last())).drop_last() =~= sdq.drop_last());
            assert(sq.update(sq.len() - 1, sq.last().push(p.last())).drop_last() =~= sq.drop_last());
        }
    }
}

/// Leading, trailing and repeated `/` in a request path do not change its
/// segments, nor, whatever the host, the request's parts.
pub proof fn law_extra_slashes_do_not_change_parts(hostname: Seq<char>, path: Seq<char>)
    ensures
        request_parts(hostname, seq!['/'] + path + seq!['/']) == request_parts(hostname, path),
        request_parts(hostname, double_slashes(path)) == request_parts(hostname, path),
{
    let e = Seq::<char>::empty();
    // leading and trailing
    let lead = seq!['/'] + path;
    let both = lead + seq!['/'];
    assert(both =~= lead.push('/'));
    assert(lead.push('/').drop_last() =~= lead);
    lemma_split_leading(path, '/');
    lemma_split_push(lead, '/', '/');
    assert(split_pieces(both, '/') == split_pieces(lead, '/').push(e));
    lemma_non_empty_push_empty(split_pieces(lead, '/'));
    lemma_non_empty_concat(seq![e], split_pieces(path, '/'));
    assert(seq![e].drop_last() =~= Seq::<Seq<char>>::empty());
    assert(non_empty(seq![e]) == non_empty(Seq::<Seq<char>>::empty()));
    assert(non_empty(seq![e]) + non_empty(split_pieces(path, '/')) =~= non_empty(split_pieces(path, '/')));
    assert(path_segments(both) == path_segments(path));
    // doubled
    lemma_double_slashes_split(path);
    let sd = split_pieces(double_slashes(path), '/');
    let sp = split_pieces(path, '/');
    lemma_split_pieces_len(path, '/');
    lemma_split_pieces_len(double_slashes(path), '/');
    assert(sd.drop_last().push(sd.last()) =~= sd);
    assert(sp.drop_last().push(sp.last()) =~= sp);
    assert(path_segments(double_slashes(path)) == path_segments(path));
}

} // verus!
