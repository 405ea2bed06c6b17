//! The generic document tree that flattening walks: mappings, sequences
//! and scalar leaves, as a parser hands them over.

use vstd::prelude::*;
use crate::text::i64_dec_string;
use crate::text::i64_to_string;

verus! {

/// One node of a parsed document: a mapping of keys to nodes, a sequence
/// of nodes, or a scalar leaf. `Real` carries the textual form of a
/// numeric literal unchanged; `Other` stands for every remaining node
/// kind (null and the like).
pub enum Node {
    Mapping(Vec<(Node, Node)>),
    Sequence(Vec<Node>),
    Real(String),
    Integer(i64),
    Str(String),
    Boolean(bool),
    Other,
}

/// The textual form of a leaf: numeric text and strings pass through,
/// integers render in decimal, booleans as `true`/`false`, a sequence
/// concatenates its elements' forms with no separator, and every other
/// kind becomes the fixed placeholder.
pub open spec fn string_of(n: Node) -> Seq<char>
    decreases n,
{
    match n {
        Node::Real(s) => s@,
        Node::Integer(v) => i64_dec_string(v as int),
        Node::Str(s) => s@,
        Node::Boolean(b) => if b {
            "true"@
        } else {
            "false"@
        },
        Node::Sequence(items) => strings_concat(items@),
        Node::Mapping(_) => "todo"@,
        Node::Other => "todo"@,
    }
}

/// The concatenation of the textual forms of a run of nodes.
pub open spec fn strings_concat(items: Seq<Node>) -> Seq<char>
    decreases items,
{
    if items.len() == 0 {
        Seq::empty()
    } else {
        strings_concat(items.drop_last()) + string_of(items.last())
    }
}

/// The flat key/value pairs of a run of mapping entries, in entry order:
/// a pair whose key is not text is skipped; a mapping value is flattened
/// in place under the extended prefix; any other value becomes one pair
/// of the prefixed key and the value's textual form.
pub open spec fn flatten_entries(prefix: Seq<char>, es: Seq<(Node, Node)>) -> Seq<
    (Seq<char>, Seq<char>),
>
    decreases es,
{
    if es.len() == 0 {
        Seq::empty()
    } else {
        let pairs = flatten_entries(prefix, es.drop_last());
        let k = es.last().0;
        let v = es.last().1;
        pairs + match k {
            Node::Str(ks) => match v {
                Node::Mapping(m) => flatten_entries(prefix + ks@ + "__"@, m@),
                _ => seq![(prefix + ks@, string_of(v))],
            },
            _ => Seq::<(Seq<char>, Seq<char>)>::empty(),
        }
    }
}

/// The view of a vector of string pairs as a sequence of character-level
/// pairs.
pub open spec fn pairs_view(v: Seq<(String, String)>) -> Seq<(Seq<char>, Seq<char>)> {
    Seq::new(v.len(), |i: int| (v[i].0@, v[i].1@))
}

/// The character-level form of an optional prefix.
pub open spec fn flat_prefix(prefix: Option<String>) -> Seq<char> {
    match prefix {
        Some(p) => p@,
        None => Seq::empty(),
    }
}

/// Renders a leaf node as text, as `string_of` states it.
pub fn yaml_to_string(yml: &Node) -> (r: String)
    ensures
        r@ == string_of(*yml),
    decreases *yml,
{
    match yml {
        Node::Real(val) => val.clone(),
        Node::Integer(val) => i64_to_string(*val),
        Node::Str(val) => val.clone(),
        Node::Boolean(val) => if *val {
            String::from_str("true")
        } else {
            String::from_str("false")
        },
        Node::Sequence(val) => {
            let mut acc = String::new();
            let mut idx: usize = 0;
            while idx < val.len()
                invariant
                    idx <= val.len(),
                    *yml == Node::Sequence(*val),
                    acc@ == strings_concat(val@.subrange(0, idx as int)),
                decreases val.len() - idx,
            {
                proof {
                    assert(decreases_to!(*yml => (*yml)->Sequence_0));
                    assert((*yml)->Sequence_0 == *val);
                    assert(decreases_to!(*val => val@));
                    assert(decreases_to!(val@ => val@[idx as int]));
                }
                let elem = yaml_to_string(&val[idx]);
                acc.append(elem.as_str());
                proof {
                    assert(val@.subrange(0, idx + 1 as int).drop_last() =~= val@.subrange(
                        0,
                        idx as int,
                    ));
                    assert(val@.subrange(0, idx + 1 as int).last() == val@[idx as int]);
                }
                idx = idx + 1;
            }
            proof {
                assert(val@.subrange(0, val.len() as int) =~= val@);
            }
            acc
        },
        Node::Mapping(_) => String::from_str("todo"),
        Node::Other => String::from_str("todo"),
    }
}

/// Flattens a mapping node into its ordered key/value pairs, joining
/// nested keys under a double-underscore separator; a non-mapping node
/// yields nothing.
pub fn flatten_yaml(prefix: Option<String>, yaml: &Node) -> (r: Option<Vec<(String, String)>>)
    ensures
        r is Some <==> *yaml is Mapping,
        match r {
            Some(pairs) => pairs_view(pairs@) == flatten_entries(
                flat_prefix(prefix),
                yaml->Mapping_0@,
            ),
            None => !(*yaml is Mapping),
        },
    decreases *yaml,
{
    let ghost pfx = flat_prefix(prefix);
    match yaml {
        Node::Mapping(entries) => {
            let mut out: Vec<(String, String)> = Vec::new();
            let mut idx: usize = 0;
            proof {
                assert(pairs_view(out@) =~= flatten_entries(pfx, entries@.subrange(0, 0)));
            }
            while idx < entries.len()
                invariant
                    idx <= entries.len(),
                    *yaml == Node::Mapping(*entries),
                    pfx == flat_prefix(prefix),
                    pairs_view(out@) == flatten_entries(pfx, entries@.subrange(0, idx as int)),
                decreases entries.len() - idx,
            {
                let ghost done = entries@.subrange(0, idx as int);
                let ghost next = entries@.subrange(0, idx + 1 as int);
                proof {
                    assert(next.drop_last() =~= done);
                    assert(next.last() == entries@[idx as int]);
                }
                let pair = &entries[idx];
                match &pair.0 {
                    Node::Str(ks) => {
                        match &pair.1 {
                            Node::Mapping(_) => {
                                let mut new_prefix = String::new();
                                if let Some(prefix_str) = &prefix {
                                    new_prefix.append(prefix_str.as_str());
                                }
                                new_prefix.append(ks.as_str());
                                new_prefix.append("__");
                                proof {
                                    assert(new_prefix@ =~= pfx + ks@ + "__"@);
                                    assert(decreases_to!(*yaml => (*yaml)->Mapping_0));
                                    assert((*yaml)->Mapping_0 == *entries);
                                    assert(decreases_to!(*entries => entries@));
                                    assert(decreases_to!(entries@ => entries@[idx as int]));
                                    assert(decreases_to!(entries@[idx as int] =>
                                        entries@[idx as int].1));
                                }
                                let sub = flatten_yaml(Some(new_prefix), &pair.1);
                                let mut sub_pairs = sub.unwrap();
                                let ghost old_out = out@;
                                let ghost subv = sub_pairs@;
                                out.append(&mut sub_pairs);
                                proof {
                                    assert(pairs_view(out@) =~= pairs_view(old_out) + pairs_view(
                                        subv,
                                    ));
                                    assert(pairs_view(out@) =~= flatten_entries(pfx, next));
                                }
                            },
                            _ => {
                                let mut key = String::new();
                                if let Some(prefix_str) = &prefix {
                                    key.append(prefix_str.as_str());
                                }
                                key.append(ks.as_str());
                                proof {
                                    assert(key@ =~= pfx + ks@);
                                }
                                let value = yaml_to_string(&pair.1);
                                let ghost old_out = out@;
                                let ghost kview = key@;
                                let ghost vview = value@;
                                out.push((key, value));
                                proof {
                                    assert(pairs_view(out@) =~= pairs_view(old_out) + seq![
                                        (kview, vview),
                                    ]);
                                    assert(pairs_view(out@) =~= flatten_entries(pfx, next));
                                }
                            },
                        }
                    },
                    _ => {
                        proof {
                            assert(flatten_entries(pfx, next) =~= flatten_entries(pfx, done));
                        }
                    },
                }
                idx = idx + 1;
            }
            proof {
                assert(entries@.subrange(0, entries.len() as int) =~= entries@);
            }
            Some(out)
        },
        _ => None,
    }
}

} // verus!
