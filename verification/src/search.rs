//! Searching a bucket chain for a key.

use vstd::prelude::*;

use crate::allocator::BlockAllocator;
#[allow(unused_imports)]
use crate::allocator::Files;
use crate::bytes::same_bytes;
use crate::error::Error;
use crate::layout::NODE_SIZE_U64;
use crate::node::{read_node, Node};
#[allow(unused_imports)]
use crate::node::{key_at, next_at, node_defect, value_at};
#[allow(unused_imports)]
use crate::storage::{after_in, first_of, linked, node_limit};

verus! {

/// Where a search along a chain ends.
pub enum Walk {
    /// At the first node that has the key, behind the node given first.
    Found(Option<u64>, u64),
    /// Behind the last node.
    Missing,
    /// At an offset where there is no node.
    Broken(Error),
    /// Nowhere: the chain is longer than the body has room for.
    Endless,
}

/// The search for `key` from `current` on, which stands behind `before`, over at
/// most `steps` nodes.
pub open spec fn walk(
    body: Files,
    before: Option<u64>,
    current: u64,
    key: Seq<u8>,
    steps: nat,
) -> Walk
    decreases steps,
{
    if current == 0 {
        Walk::Missing
    } else if steps == 0 {
        Walk::Endless
    } else {
        match node_defect(body.capacity(), body.data, current as int) {
            Some(error) => Walk::Broken(error),
            None => if key_at(body.data, current as int) == key {
                Walk::Found(before, current)
            } else {
                walk(
                    body,
                    Some(current),
                    next_at(body.data, current as int),
                    key,
                    (steps - 1) as nat,
                )
            },
        }
    }
}

/// The search for `key` in the chain that starts at `root`.
pub open spec fn search(body: Files, root: u64, key: Seq<u8>) -> Walk {
    walk(body, None, root, key, node_limit(body.capacity()) as nat)
}

/// The place that holds the offset of a node.
#[derive(Clone, Copy, Debug, PartialEq, Eq, Structural)]
pub enum Link {
    /// The head of a bucket.
    Head(u64),
    /// The pointer word of the node at an offset.
    Node(u64),
}

/// Result of a search.
pub struct Found {
    /// The node that has the key.
    pub node: Option<Node>,
    /// First node of the chain.
    pub root: u64,
    /// The place that holds the offset of the node, or of the end of the chain.
    pub link: Link,
    /// Number of nodes in front of the node.
    pub index: Ghost<int>,
}

/// Whether a search that found a node tells where in `chain` it stands.
pub open spec fn found_in(
    data: Seq<u8>,
    bucket: u64,
    chain: Seq<u64>,
    key: Seq<u8>,
    found: Found,
) -> bool {
    let index = found.index@;
    &&& 0 <= index <= chain.len()
    &&& forall|j: int| 0 <= j < index ==> key_at(data, #[trigger] chain[j] as int) != key
    &&& match found.node {
        Some(node) => index < chain.len() && chain[index] == node.offset,
        None => index == chain.len(),
    }
    &&& found.link == (if index == 0 {
        Link::Head(bucket)
    } else {
        Link::Node(chain[index - 1])
    })
}

/// Whether `node` holds what stands at its offset.
pub open spec fn reads_as(data: Seq<u8>, node: Node) -> bool {
    &&& node.next == next_at(data, node.offset as int)
    &&& node.value == value_at(data, node.offset as int)
    &&& node.key@ == key_at(data, node.offset as int)
}

/// Whether `link` holds `offset`.
pub open spec fn link_holds(body: Files, root: u64, link: Link, offset: u64) -> bool {
    match link {
        Link::Head(_) => root == offset,
        Link::Node(before) => node_defect(body.capacity(), body.data, before as int) is None
            && next_at(body.data, before as int) == offset,
    }
}

/// Searches the chain of `bucket`, which starts at `root`, for `key`.
pub(crate) fn find(
    body: &BlockAllocator,
    bucket: u64,
    root: u64,
    key: &[u8],
    chain: Ghost<Seq<u64>>,
) -> (result: Result<Found, Error>)
    requires
        body.wf(),
    ensures
        match search(body.files(), root, key@) {
            Walk::Found(before, offset) => result matches Ok(found) && found.node matches Some(node)
                && node.offset == offset && node.key@ == key@ && found.link == (match before {
                Some(before) => Link::Node(before),
                None => Link::Head(bucket),
            }),
            Walk::Missing => result matches Ok(found) && found.node is None,
            Walk::Broken(error) => result == Err::<Found, Error>(error),
            Walk::Endless => result == Err::<Found, Error>(
                Error::Corrupt("body chain contains a cycle"),
            ),
        },
        result matches Ok(found) ==> {
            &&& found.root == root
            &&& found.link matches Link::Head(head) ==> head == bucket
            &&& found.link matches Link::Node(before) ==> key_at(body.data(), before as int)
                != key@
            &&& root == 0 || node_defect(body.capacity(), body.data(), root as int) is None
            &&& found.node matches Some(node) ==> {
                &&& node_defect(body.capacity(), body.data(), node.offset as int) is None
                &&& reads_as(body.data(), node)
                &&& link_holds(body.files(), root, found.link, node.offset)
            }
        },
        linked(body.files(), root, chain@) && chain@.len() < node_limit(body.capacity())
            ==> result is Ok && found_in(body.data(), bucket, chain@, key@, result->Ok_0),
{
    let limit: u64 = body.byte_capacity() / NODE_SIZE_U64 + 1;
    let ghost files = body.files();
    let ghost sound = linked(files, root, chain@) && chain@.len() < limit;
    let mut link = Link::Head(bucket);
    let mut current: u64 = root;
    let mut visited: u64 = 0;
    while current != 0
        invariant
            body.wf(),
            files == body.files(),
            limit == node_limit(files.capacity()),
            visited <= limit,
            search(files, root, key@) == walk(
                files,
                match link {
                    Link::Head(_) => None,
                    Link::Node(before) => Some(before),
                },
                current,
                key@,
                (limit - visited) as nat,
            ),
            link_holds(files, root, link, current),
            link matches Link::Head(head) ==> head == bucket && visited == 0,
            link matches Link::Node(before) ==> key_at(files.data, before as int) != key@
                && node_defect(files.capacity(), files.data, root as int) is None,
            sound == (linked(files, root, chain@) && chain@.len() < limit),
            sound ==> {
                &&& visited <= chain@.len()
                &&& current == (if visited < chain@.len() {
                    chain@[visited as int]
                } else {
                    0
                })
                &&& forall|j: int|
                    0 <= j < visited ==> key_at(files.data, #[trigger] chain@[j] as int) != key@
                &&& link == (if visited == 0 {
                    Link::Head(bucket)
                } else {
                    Link::Node(chain@[visited - 1])
                })
            },
        decreases limit - visited,
    {
        if visited == limit {
            return Err(Error::Corrupt("body chain contains a cycle"));
        }
        let node = match read_node(body, current) {
            Ok(node) => node,
            Err(error) => {
                proof {
                    if sound {
                        let offset = chain@[visited as int] as int;
                        assert(node_defect(files.capacity(), files.data, offset) is None);
                    }
                }
                return Err(error);
            },
        };
        if same_bytes(node.key.as_slice(), key) {
            return Ok(Found { node: Some(node), root, link, index: Ghost(visited as int) });
        }
        proof {
            reveal(after_in);
            if sound {
                assert(next_at(files.data, chain@[visited as int] as int) == after_in(
                    chain@,
                    visited as int,
                ));
            }
        }
        link = Link::Node(current);
        current = node.next;
        visited = visited + 1;
    }
    Ok(Found { node: None, root, link, index: Ghost(visited as int) })
}

/// Along a chain that is linked, the search stops at the first node that has the
/// key, or behind the last node.
pub proof fn lemma_walk(body: Files, chain: Seq<u64>, from: int, key: Seq<u8>, steps: nat)
    requires
        linked(body, first_of(chain), chain),
        0 <= from <= chain.len(),
        chain.len() - from <= steps,
    ensures
        ({
            let before = if from == 0 {
                None
            } else {
                Some(chain[from - 1])
            };
            let current = if from < chain.len() {
                chain[from]
            } else {
                0
            };
            match walk(body, before, current, key, steps) {
                Walk::Found(last, offset) => exists|index: int|
                    {
                        &&& from <= index < chain.len()
                        &&& #[trigger] chain[index] == offset
                        &&& key_at(body.data, offset as int) == key
                        &&& last == (if index == 0 {
                            None
                        } else {
                            Some(chain[index - 1])
                        })
                        &&& forall|j: int|
                            from <= j < index ==> key_at(body.data, #[trigger] chain[j] as int)
                                != key
                    },
                Walk::Missing => forall|j: int|
                    from <= j < chain.len() ==> key_at(body.data, #[trigger] chain[j] as int)
                        != key,
                Walk::Broken(_) => false,
                Walk::Endless => false,
            }
        }),
    decreases chain.len() - from,
{
    if from < chain.len() {
        let current = chain[from];
        assert(node_defect(body.capacity(), body.data, current as int) is None);
        assert(current != 0);
        if key_at(body.data, current as int) != key {
            assert(next_at(body.data, current as int) == after_in(chain, from));
            assert(after_in(chain, from) == (if from + 1 < chain.len() {
                chain[from + 1]
            } else {
                0
            })) by {
                reveal(after_in);
            }
            lemma_walk(body, chain, from + 1, key, (steps - 1) as nat);
            match walk(
                body,
                Some(current),
                next_at(body.data, current as int),
                key,
                (steps - 1) as nat,
            ) {
                Walk::Found(last, offset) => {
                    let index = choose|index: int|
                        {
                            &&& from + 1 <= index < chain.len()
                            &&& #[trigger] chain[index] == offset
                            &&& key_at(body.data, offset as int) == key
                            &&& last == (if index == 0 {
                                None
                            } else {
                                Some(chain[index - 1])
                            })
                            &&& forall|j: int|
                                from + 1 <= j < index ==> key_at(
                                    body.data,
                                    #[trigger] chain[j] as int,
                                ) != key
                        };
                    assert(chain[index] == offset);
                },
                _ => {},
            }
        }
    }
}

} // verus!
