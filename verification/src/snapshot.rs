//! Snapshots: consistent point-in-time views of the database.
//!
//! A snapshot records the B-tree root page ids and the transaction id of
//! one commit. Read transactions work against a snapshot; write
//! transactions produce a new one.

use vstd::prelude::*;
use crate::format::Superblock;
use crate::page::PageId;

verus! {

/// The B-tree root page ids that define a database state.
#[derive(Clone, Copy, Debug, PartialEq, Eq, Structural)]
pub struct SnapshotRoots {
    /// Node Store B-tree root.
    pub node_store: PageId,
    /// Edge Store B-tree root.
    pub edge_store: PageId,
    /// Outgoing Adjacency Index root.
    pub outgoing_adj: PageId,
    /// Incoming Adjacency Index root.
    pub incoming_adj: PageId,
    /// Type Index root.
    pub type_index: PageId,
    /// Schema Store root.
    pub schema_store: PageId,
    /// ID Freelist root.
    pub id_freelist: PageId,
    /// Page Freelist root.
    pub page_freelist: PageId,
}

/// A consistent point-in-time view of the database: root page ids and a
/// transaction id.
#[derive(Clone, Copy, Debug, PartialEq, Eq, Structural)]
pub struct Snapshot {
    /// The transaction id at which this snapshot was taken.
    pub transaction_id: u64,
    /// Total number of pages in the file at this snapshot.
    pub total_pages: u64,
    /// The root page ids of all eight B-trees.
    pub roots: SnapshotRoots,
}

/// The root of the tree at catalog index `i`, if `i < 8`: node store, edge
/// store, outgoing adjacency, incoming adjacency, type index, schema store,
/// ID freelist, page freelist.
pub open spec fn root_at(roots: SnapshotRoots, i: int) -> Option<PageId> {
    if i == 0 {
        Some(roots.node_store)
    } else if i == 1 {
        Some(roots.edge_store)
    } else if i == 2 {
        Some(roots.outgoing_adj)
    } else if i == 3 {
        Some(roots.incoming_adj)
    } else if i == 4 {
        Some(roots.type_index)
    } else if i == 5 {
        Some(roots.schema_store)
    } else if i == 6 {
        Some(roots.id_freelist)
    } else if i == 7 {
        Some(roots.page_freelist)
    } else {
        None
    }
}

/// The snapshot that a superblock describes.
pub open spec fn snapshot_of(sb: Superblock) -> Snapshot {
    Snapshot {
        transaction_id: sb.transaction_id,
        total_pages: sb.total_pages,
        roots: SnapshotRoots {
            node_store: sb.root_node_store,
            edge_store: sb.root_edge_store,
            outgoing_adj: sb.root_outgoing_adj,
            incoming_adj: sb.root_incoming_adj,
            type_index: sb.root_type_index,
            schema_store: sb.root_schema_store,
            id_freelist: sb.root_id_freelist,
            page_freelist: sb.root_page_freelist,
        },
    }
}

impl Snapshot {
    /// The root page id of the tree at catalog index `tree_index`, or
    /// `None` when `tree_index >= 8`.
    pub fn root_for_tree(&self, tree_index: usize) -> (r: Option<PageId>)
        ensures
            r == root_at(self.roots, tree_index as int),
    {
        match tree_index {
            0 => Some(self.roots.node_store),
            1 => Some(self.roots.edge_store),
            2 => Some(self.roots.outgoing_adj),
            3 => Some(self.roots.incoming_adj),
            4 => Some(self.roots.type_index),
            5 => Some(self.roots.schema_store),
            6 => Some(self.roots.id_freelist),
            7 => Some(self.roots.page_freelist),
            _ => None,
        }
    }
}

impl<'a> From<&'a Superblock> for Snapshot {
    fn from(sb: &'a Superblock) -> (r: Snapshot) {
        Snapshot {
            transaction_id: sb.transaction_id,
            total_pages: sb.total_pages,
            roots: SnapshotRoots {
                node_store: sb.root_node_store,
                edge_store: sb.root_edge_store,
                outgoing_adj: sb.root_outgoing_adj,
                incoming_adj: sb.root_incoming_adj,
                type_index: sb.root_type_index,
                schema_store: sb.root_schema_store,
                id_freelist: sb.root_id_freelist,
                page_freelist: sb.root_page_freelist,
            },
        }
    }
}

impl<'a> vstd::std_specs::convert::FromSpecImpl<&'a Superblock> for Snapshot {
    open spec fn obeys_from_spec() -> bool {
        true
    }

    open spec fn from_spec(sb: &'a Superblock) -> Snapshot {
        snapshot_of(*sb)
    }
}

/// A snapshot's roots, read by catalog index, are the superblock's roots in
/// the order of [`Superblock::root_page_ids`].
pub proof fn lemma_snapshot_roots_in_catalog_order(sb: Superblock, i: int)
    requires
        0 <= i < 8,
    ensures
        root_at(snapshot_of(sb).roots, i) == Some(
            seq![
                sb.root_node_store,
                sb.root_edge_store,
                sb.root_outgoing_adj,
                sb.root_incoming_adj,
                sb.root_type_index,
                sb.root_schema_store,
                sb.root_id_freelist,
                sb.root_page_freelist,
            ][i],
        ),
{
}

} // verus!
