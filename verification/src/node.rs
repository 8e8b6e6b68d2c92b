//! A tree node: one page of either kind behind a common construction
//! interface, resolved once when the page is opened. The algorithms that walk
//! and grow the tree belong to the assembly layer built on top of the engine.

use crate::inner::{InnerPage, INNER_HEADER, INNER_SORTED_TABLE};
use crate::layout::{agree_outside, head_of, tail_of};
use crate::leaf::{leaf_entries, LeafPage, LEAF_HEADER, LEAF_SORTED_TABLE};
use crate::model::Entry;
use crate::page::{open_checks_pass, spec_valid_common_data};
use crate::region::region_bytes;
use crate::MiniBaseResult;
use vstd::prelude::*;

verus! {

#[derive(PartialEq, Eq, Structural, Copy, Clone, Debug)]
pub enum NodeType {
    Leaf,
    Inner,
}

/// One page of the tree, of whichever kind its header names.
pub struct Node {
    pub leaf_page: Option<LeafPage>,
    pub inner_page: Option<InnerPage>,
    pub node_type: NodeType,
}

impl Node {
    /// Initializes a fresh page of the requested kind over a mapped region.
    pub fn new(region: memmap2::MmapMut, page_size: u32, node_type: NodeType) -> (r: Node)
        requires
            crate::region::region_bytes(region).len() == page_size,
            node_type == NodeType::Leaf ==> page_size >= 25,
            node_type == NodeType::Inner ==> page_size >= 21,
        ensures
            r.node_type == node_type,
            node_type == NodeType::Leaf ==> {
                &&& r.leaf_page is Some
                &&& r.inner_page is None
                &&& r.leaf_page->0.wf()
                &&& leaf_entries(r.leaf_page->0@) == Seq::<Entry>::empty()
                &&& r.leaf_page->0@.len() == page_size
                &&& head_of(r.leaf_page->0@) == LEAF_SORTED_TABLE
                &&& tail_of(r.leaf_page->0@) == page_size
                &&& agree_outside(r.leaf_page->0@, region_bytes(region), 0, 17)
            },
            node_type == NodeType::Inner ==> {
                &&& r.leaf_page is None
                &&& r.inner_page is Some
                &&& r.inner_page->0.wf()
                &&& r.inner_page->0@.len() == page_size
                &&& head_of(r.inner_page->0@) == INNER_SORTED_TABLE
                &&& tail_of(r.inner_page->0@) == page_size
                &&& agree_outside(r.inner_page->0@, region_bytes(region), 0, 17)
            },
    {
        match node_type {
            NodeType::Leaf => {
                let page = LeafPage::new(region, page_size);
                Node { leaf_page: Some(page), inner_page: None, node_type: NodeType::Leaf }
            },
            NodeType::Inner => {
                let page = InnerPage::new(region, page_size);
                Node { leaf_page: None, inner_page: Some(page), node_type: NodeType::Inner }
            },
        }
    }

    /// Reopens a page of the requested kind, validating its stored fields;
    /// the page constructor's validation error propagates unchanged.
    pub fn from(region: memmap2::MmapMut, page_size: u32, node_type: NodeType) -> (r:
        MiniBaseResult<Node>)
        requires
            crate::region::region_bytes(region).len() == page_size,
            page_size >= 17,
        ensures
            r is Ok <==> (node_type == NodeType::Leaf && open_checks_pass(
                region_bytes(region),
                page_size as int,
                LEAF_HEADER,
                LEAF_SORTED_TABLE as int,
            )) || (node_type == NodeType::Inner && open_checks_pass(
                region_bytes(region),
                page_size as int,
                INNER_HEADER,
                INNER_SORTED_TABLE as int,
            )),
            r matches Ok(node) ==> {
                &&& node.node_type == node_type
                &&& (node_type == NodeType::Leaf ==> node.leaf_page is Some && node.inner_page
                    is None && node.leaf_page->0@ == region_bytes(region))
                &&& (node_type == NodeType::Inner ==> node.leaf_page is None && node.inner_page
                    is Some && node.inner_page->0@ == region_bytes(region))
            },
            r matches Err(e) ==> Some(e) == (if node_type == NodeType::Leaf {
                spec_valid_common_data(
                    region_bytes(region),
                    page_size as int,
                    LEAF_HEADER,
                    LEAF_SORTED_TABLE as int,
                )
            } else {
                spec_valid_common_data(
                    region_bytes(region),
                    page_size as int,
                    INNER_HEADER,
                    INNER_SORTED_TABLE as int,
                )
            }),
    {
        match node_type {
            NodeType::Leaf => {
                match LeafPage::from(region, page_size) {
                    Ok(page) => Ok(
                        Node { leaf_page: Some(page), inner_page: None, node_type: NodeType::Leaf },
                    ),
                    Err(error) => Err(error),
                }
            },
            NodeType::Inner => {
                match InnerPage::from(region, page_size) {
                    Ok(page) => Ok(
                        Node {
                            leaf_page: None,
                            inner_page: Some(page),
                            node_type: NodeType::Inner,
                        },
                    ),
                    Err(error) => Err(error),
                }
            },
        }
    }

    pub fn get_type(&self) -> (r: NodeType)
        ensures
            r == self.node_type,
    {
        self.node_type
    }
}

} // verus!
