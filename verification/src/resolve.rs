use vstd::prelude::*;
use vstd::utf8::{decode_utf8, encode_utf8, valid_utf8};
use crate::encoding::{lemma_encode_prefix_is_char_boundary, lemma_encode_utf8_concat};
use crate::proto::Project;

verus! {

/// A descriptor applies to a path when its root is a prefix of that path.
pub open spec fn root_matches(root: Seq<char>, target: Seq<char>) -> bool {
    root.is_prefix_of(target)
}

/// Index of the first descriptor at or after `start` whose root is a prefix
/// of `target`; `None` when no descriptor from `start` on matches.
pub open spec fn spec_find_index(target: Seq<char>, ps: Seq<Project>, start: int) -> Option<int>
    decreases ps.len() - start,
{
    if start < 0 || start >= ps.len() {
        None
    } else if root_matches(ps[start].root@, target) {
        Some(start)
    } else {
        spec_find_index(target, ps, start + 1)
    }
}

/// The first descriptor whose root is a prefix of `target` wins, regardless
/// of any later, more specific match: configuration order encodes priority.
pub proof fn lemma_find_index_first_match(target: Seq<char>, ps: Seq<Project>, start: int)
    requires
        0 <= start <= ps.len(),
    ensures
        spec_find_index(target, ps, start) matches Some(i) ==> start <= i < ps.len()
            && root_matches(ps[i].root@, target) && (forall|j: int|
            start <= j < i ==> !root_matches(ps[j].root@, target)),
        spec_find_index(target, ps, start) is None ==> forall|j: int|
            start <= j < ps.len() ==> !root_matches(ps[j].root@, target),
    decreases ps.len() - start,
{
    if start < ps.len() && !root_matches(ps[start].root@, target) {
        lemma_find_index_first_match(target, ps, start + 1);
    }
}

fn bytes_prefix_eq(p: &[u8], t: &[u8]) -> (r: bool)
    ensures
        r == p@.is_prefix_of(t@),
{
    if p.len() > t.len() {
        return false;
    }
    let mut i: usize = 0;
    while i < p.len()
        invariant
            i <= p.len() <= t.len(),
            forall|j: int| 0 <= j < i ==> p@[j] == t@[j],
        decreases p.len() - i,
    {
        if p[i] != t[i] {
            assert(!p@.is_prefix_of(t@)) by {
                assert(p@[i as int] != t@.subrange(0, p@.len() as int)[i as int]);
            }
            return false;
        }
        i += 1;
    }
    assert(p@ =~= t@.subrange(0, p@.len() as int));
    true
}

/// Whether `root` is a prefix of `target`, compared character by character.
pub fn is_path_prefix(root: &str, target: &str) -> (r: bool)
    ensures
        r == root_matches(root@, target@),
{
    let rb = root.as_bytes();
    let tb = target.as_bytes();
    let byte_prefix = bytes_prefix_eq(rb, tb);
    let boundary = target.is_char_boundary(rb.len());
    proof {
        vstd::utf8::encode_utf8_valid_utf8(root@);
        vstd::utf8::encode_utf8_valid_utf8(target@);
        vstd::utf8::encode_utf8_decode_utf8(root@);
        vstd::utf8::encode_utf8_decode_utf8(target@);
        let rbs = encode_utf8(root@);
        let tbs = encode_utf8(target@);
        let n = rbs.len() as int;
        assert(rb@ == rbs && tb@ == tbs);
        if root@.is_prefix_of(target@) {
            let rest = target@.skip(root@.len() as int);
            assert(root@ + rest =~= target@);
            lemma_encode_utf8_concat(root@, rest);
            assert(tbs.subrange(0, n) =~= rbs);
            assert(rbs.is_prefix_of(tbs));
            lemma_encode_prefix_is_char_boundary(root@, rest);
            assert(byte_prefix && boundary);
        }
        if byte_prefix && boundary {
            assert(vstd::utf8::is_char_boundary(tbs, n));
            vstd::utf8::valid_utf8_split(tbs, n);
            vstd::utf8::decode_utf8_split(tbs, n);
            assert(tbs.subrange(0, n) =~= rbs);
            assert(decode_utf8(tbs.subrange(0, n)) == root@);
            assert(target@ == root@ + decode_utf8(tbs.subrange(n, tbs.len() as int)));
            assert(target@.subrange(0, root@.len() as int) =~= root@);
            assert(root_matches(root@, target@));
        }
    }
    byte_prefix && boundary
}

/// Resolves the descriptor for `target`: returns a copy of the first
/// descriptor in `projects` whose root is a path-prefix of `target`, trying
/// descriptors in the order given; `None` when none matches.
pub fn find_project(target: &str, projects: &[Project]) -> (r: Option<Project>)
    ensures
        match r {
            Some(p) => spec_find_index(target@, projects@, 0) matches Some(i) && p@
                == projects@[i]@,
            None => spec_find_index(target@, projects@, 0) is None,
        },
{
    let mut i: usize = 0;
    while i < projects.len()
        invariant
            i <= projects@.len(),
            spec_find_index(target@, projects@, 0) == spec_find_index(
                target@,
                projects@,
                i as int,
            ),
        decreases projects@.len() - i,
    {
        if is_path_prefix(projects[i].root.as_str(), target) {
            return Some(projects[i].clone());
        }
        i += 1;
    }
    None
}

} // verus!
