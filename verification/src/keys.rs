//! The names of the objects that hold blocks.

use crate::text::{chars_of, concat3, concat4};
use vstd::prelude::*;

verus! {

/// Under it stand the objects of the log.
pub const LOG_PREFIX: &'static str = "v1/log";

/// Under it stand the objects that probe what the store can do.
pub const PROBE_PREFIX: &'static str = "v1/probe";

/// A path as its segments, which a slash parts.
pub open spec fn segments(path: Seq<char>) -> Seq<Seq<char>>
    decreases path.len(),
{
    if path.len() == 0 {
        seq![Seq::<char>::empty()]
    } else {
        let front = segments(path.drop_last());
        if path.last() == '/' {
            front.push(Seq::empty())
        } else {
            front.drop_last().push(front.last().push(path.last()))
        }
    }
}

/// No slash in a name.
pub open spec fn plain(name: Seq<char>) -> bool {
    !name.contains('/')
}

proof fn lemma_segments_some(path: Seq<char>)
    ensures
        segments(path).len() > 0,
    decreases path.len(),
{
    if path.len() > 0 {
        lemma_segments_some(path.drop_last());
    }
}

proof fn lemma_segments_plain(name: Seq<char>)
    requires
        plain(name),
    ensures
        segments(name) == seq![name],
    decreases name.len(),
{
    if name.len() > 0 {
        let front = name.drop_last();
        assert(plain(front)) by {
            if front.contains('/') {
                let k = front.index_of('/');
                assert(name[k] == '/');
            }
        }
        lemma_segments_plain(front);
        assert(name[name.len() - 1] == name.last());
        assert(front.push(name.last()) =~= name);
        assert(segments(name) =~= seq![name]);
    } else {
        assert(name =~= Seq::<char>::empty());
    }
}

/// A path's segments are those before a slash and those after it.
pub proof fn lemma_segments_join(a: Seq<char>, b: Seq<char>)
    ensures
        segments(a.push('/') + b) == segments(a) + segments(b),
    decreases b.len(),
{
    let whole = a.push('/') + b;
    if b.len() == 0 {
        assert(whole =~= a.push('/'));
        assert(whole.drop_last() =~= a);
        assert(segments(whole) =~= segments(a) + segments(b));
    } else {
        let front = b.drop_last();
        lemma_segments_join(a, front);
        lemma_segments_some(front);
        assert(whole.drop_last() =~= a.push('/') + front);
        assert(whole.last() == b.last());
        assert(segments(whole) =~= segments(a) + segments(b));
    }
}

/// A path as its segments.
pub fn split_path(path: &str) -> (r: Vec<Vec<char>>)
    ensures
        r@.len() == segments(path@).len(),
        forall|i: int| 0 <= i < r@.len() ==> (#[trigger] r@[i])@ == segments(path@)[i],
{
    let chars = chars_of(path);
    let mut done: Vec<Vec<char>> = Vec::new();
    let mut current: Vec<char> = Vec::new();
    let mut i: usize = 0;
    assert(chars@.subrange(0, 0) =~= Seq::<char>::empty());
    while i < chars.len()
        invariant
            i <= chars.len(),
            segments(chars@.subrange(0, i as int)).len() == done@.len() + 1,
            segments(chars@.subrange(0, i as int)).last() == current@,
            forall|k: int|
                0 <= k < done@.len() ==> (#[trigger] done@[k])@ == segments(
                    chars@.subrange(0, i as int),
                )[k],
        decreases chars.len() - i,
    {
        let c = chars[i];
        proof {
            let front = chars@.subrange(0, i as int);
            let whole = chars@.subrange(0, i + 1);
            assert(whole.drop_last() =~= front);
            assert(whole.last() == c);
        }
        if c == '/' {
            done.push(current);
            current = Vec::new();
            assert(current@ =~= Seq::<char>::empty());
        } else {
            current.push(c);
        }
        i += 1;
    }
    assert(chars@.subrange(0, chars@.len() as int) =~= path@);
    done.push(current);
    done
}

pub fn chars_are(v: &Vec<char>, text: &str) -> (r: bool)
    ensures
        r == (v@ == text@),
{
    let other = chars_of(text);
    if v.len() != other.len() {
        return false;
    }
    let mut i: usize = 0;
    while i < v.len()
        invariant
            i <= v.len(),
            v.len() == other.len(),
            other@ == text@,
            forall|k: int| 0 <= k < i ==> v@[k] == other@[k],
        decreases v.len() - i,
    {
        if v[i] != other[i] {
            assert(v@[i as int] != text@[i as int]);
            return false;
        }
        i += 1;
    }
    assert(v@ =~= text@);
    true
}

/// A path that is a prefix or lies under it.
pub open spec fn under(key: Seq<char>, prefix: Seq<char>) -> bool {
    key == prefix || (key.len() > prefix.len() && key.subrange(0, prefix.len() as int) == prefix
        && key[prefix.len() as int] == '/')
}

pub fn has_path_prefix(key: &str, prefix: &str) -> (r: bool)
    ensures
        r == under(key@, prefix@),
{
    let k = chars_of(key);
    let p = chars_of(prefix);
    if k.len() < p.len() {
        return false;
    }
    let mut i: usize = 0;
    while i < p.len()
        invariant
            i <= p.len() <= k.len(),
            k@ == key@,
            p@ == prefix@,
            forall|j: int| 0 <= j < i ==> k@[j] == p@[j],
        decreases p.len() - i,
    {
        if k[i] != p[i] {
            proof {
                if under(key@, prefix@) {
                    if key@ != prefix@ {
                        assert(key@.subrange(0, prefix@.len() as int)[i as int] == key@[i as int]);
                    }
                }
            }
            return false;
        }
        i += 1;
    }
    assert(key@.subrange(0, prefix@.len() as int) =~= prefix@);
    if k.len() == p.len() {
        assert(key@ =~= prefix@);
        true
    } else {
        k[p.len()] == '/'
    }
}

/// The name of a stored object: some stem, and the ending of its format.
pub open spec fn object_name(name: Seq<char>) -> bool {
    name.len() > ".arrow"@.len() && name.subrange(
        name.len() - ".arrow"@.len(),
        name.len() as int,
    ) == ".arrow"@
}

fn arrow_object_name(name: &Vec<char>) -> (r: bool)
    ensures
        r == object_name(name@),
{
    let ending = chars_of(".arrow");
    if name.len() <= ending.len() {
        return false;
    }
    let at: usize = name.len() - ending.len();
    let mut i: usize = 0;
    while i < ending.len()
        invariant
            i <= ending.len(),
            at + ending.len() == name.len(),
            ending@ == ".arrow"@,
            ending.len() < name.len(),
            forall|j: int| 0 <= j < i ==> name@[at + j] == ending@[j],
        decreases ending.len() - i,
    {
        if name[at + i] != ending[i] {
            assert(name@.subrange(at as int, name@.len() as int)[i as int] == name@[at + i]);
            return false;
        }
        i += 1;
    }
    assert(name@.subrange(at as int, name@.len() as int) =~= ending@);
    true
}

/// A part of a block that is stored as an object.
pub open spec fn block_part(part: Seq<char>) -> bool {
    part == "data"@ || part == "meta"@
}

/// An object that holds a block of a table, or of one of its families, or the
/// page index of one.
pub open spec fn block_key(key: Seq<char>) -> bool {
    let s = segments(key);
    &&& s.len() == 7 || s.len() == 8
    &&& s[0] == "v1"@
    &&& s[1] == "graphs"@
    &&& s[2].len() > 0
    &&& s[3] == "tables"@
    &&& s[4].len() > 0
    &&& (s.len() == 8 ==> s[5].len() > 0)
    &&& block_part(s[s.len() - 2])
    &&& object_name(s[s.len() - 1])
}

pub fn is_graph_data_or_meta_key(key: &str) -> (r: bool)
    ensures
        r == block_key(key@),
{
    let s = split_path(key);
    let n = s.len();
    let ghost p = segments(key@);
    if n != 7 && n != 8 {
        return false;
    }
    assert(s@[0]@ == p[0] && s@[1]@ == p[1] && s@[2]@ == p[2] && s@[3]@ == p[3] && s@[4]@ == p[4]
        && s@[5]@ == p[5] && s@[6]@ == p[6]);
    assert(s@[n - 1]@ == p[n - 1] && s@[n - 2]@ == p[n - 2]);
    if !chars_are(&s[0], "v1") || !chars_are(&s[1], "graphs") || s[2].len() == 0 || !chars_are(
        &s[3],
        "tables",
    ) || s[4].len() == 0 {
        return false;
    }
    if n == 8 && s[5].len() == 0 {
        return false;
    }
    (chars_are(&s[n - 2], "data") || chars_are(&s[n - 2], "meta")) && arrow_object_name(&s[n - 1])
}

/// The name of an object of a block.
pub open spec fn object_key_spec(
    graph: Seq<char>,
    table: Seq<char>,
    family: Seq<char>,
    part: Seq<char>,
    trie_key: Seq<char>,
) -> Seq<char> {
    let scope = "v1/graphs/"@ + graph + "/tables/"@ + table;
    let with_family = if family.len() == 0 {
        scope
    } else {
        scope + "/"@ + family
    };
    with_family + "/"@ + part + ("/"@ + trie_key + ".arrow"@)
}

pub fn object_key(graph: &str, table: &str, family: &str, part: &str, trie_key: &str) -> (r: String)
    ensures
        r@ == object_key_spec(graph@, table@, family@, part@, trie_key@),
{
    let scope = concat4("v1/graphs/", graph, "/tables/", table);
    let with_family = if chars_of(family).len() == 0 {
        scope
    } else {
        concat3(scope.as_str(), "/", family)
    };
    let object = concat3("/", trie_key, ".arrow");
    concat4(with_family.as_str(), "/", part, object.as_str())
}

proof fn lemma_join_plain(a: Seq<char>, name: Seq<char>)
    requires
        plain(name),
    ensures
        segments(a + "/"@ + name) == segments(a).push(name),
{
    reveal_strlit("/");
    assert(a + "/"@ + name =~= a.push('/') + name);
    lemma_segments_join(a, name);
    lemma_segments_plain(name);
    assert(segments(a) + seq![name] =~= segments(a).push(name));
}

/// Every object of a block is known by its name as one.
pub proof fn law_object_keys_are_block_keys(
    graph: Seq<char>,
    table: Seq<char>,
    family: Seq<char>,
    part: Seq<char>,
    trie_key: Seq<char>,
)
    requires
        plain(graph) && graph.len() > 0,
        plain(table) && table.len() > 0,
        plain(family),
        block_part(part),
        plain(trie_key) && trie_key.len() > 0,
    ensures
        block_key(object_key_spec(graph, table, family, part, trie_key)),
{
    reveal_strlit("/");
    reveal_strlit("v1");
    reveal_strlit("graphs");
    reveal_strlit("v1/graphs/");
    reveal_strlit("tables");
    reveal_strlit("/tables/");
    reveal_strlit(".arrow");
    reveal_strlit("data");
    reveal_strlit("meta");
    assert(plain("v1"@) && plain("graphs"@) && plain("tables"@) && plain("data"@) && plain(
        "meta"@,
    ));
    let s2 = "v1"@ + "/"@ + "graphs"@;
    lemma_segments_plain("v1"@);
    lemma_join_plain("v1"@, "graphs"@);
    let s3 = s2 + "/"@ + graph;
    lemma_join_plain(s2, graph);
    let s4 = s3 + "/"@ + "tables"@;
    lemma_join_plain(s3, "tables"@);
    let s5 = s4 + "/"@ + table;
    lemma_join_plain(s4, table);
    let scope = "v1/graphs/"@ + graph + "/tables/"@ + table;
    assert(scope =~= s5);
    let with_family = if family.len() == 0 {
        scope
    } else {
        scope + "/"@ + family
    };
    if family.len() > 0 {
        lemma_join_plain(s5, family);
    }
    lemma_join_plain(with_family, part);
    let object = trie_key + ".arrow"@;
    assert(plain(object)) by {
        if object.contains('/') {
            let k = object.index_of('/');
            if k < trie_key.len() {
                assert(trie_key[k] == '/');
            }
        }
    }
    let key = object_key_spec(graph, table, family, part, trie_key);
    assert(key =~= (with_family + "/"@ + part) + "/"@ + object);
    lemma_join_plain(with_family + "/"@ + part, object);
    assert(object.subrange(object.len() - ".arrow"@.len(), object.len() as int) =~= ".arrow"@);
}

} // verus!
