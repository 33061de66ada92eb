//! The grammar: the part-of-speech list and the connection matrix.

use vstd::prelude::*;
use crate::connect::ConnectionMatrix;

verus! {

/// Read-only grammar data: one list of part-of-speech component strings
/// per part-of-speech id, and the bigram connection matrix.
pub struct Grammar {
    pos_list: Vec<Vec<String>>,
    conn: ConnectionMatrix,
}

impl Grammar {
    pub closed spec fn spec_pos_list(self) -> Seq<Seq<String>> {
        self.pos_list@.map_values(|p: Vec<String>| p@)
    }

    pub closed spec fn spec_conn(self) -> ConnectionMatrix {
        self.conn
    }

    pub fn new(pos_list: Vec<Vec<String>>, conn: ConnectionMatrix) -> (r: Grammar)
        ensures
            r.spec_pos_list().len() == pos_list@.len(),
            forall|i: int|
                0 <= i < pos_list@.len() ==> #[trigger] r.spec_pos_list()[i] == pos_list@[i]@,
            r.spec_conn() == conn,
    {
        Grammar { pos_list, conn }
    }

    /// Number of part-of-speech ids the grammar knows.
    pub fn pos_count(&self) -> (r: usize)
        ensures
            r == self.spec_pos_list().len(),
    {
        self.pos_list.len()
    }

    /// The components of one part of speech.
    pub fn pos_components(&self, pos_id: usize) -> (r: &Vec<String>)
        requires
            pos_id < self.spec_pos_list().len(),
        ensures
            r@ == self.spec_pos_list()[pos_id as int],
    {
        &self.pos_list[pos_id]
    }

    /// The connection matrix.
    pub fn conn_matrix(&self) -> (r: &ConnectionMatrix)
        ensures
            *r == self.spec_conn(),
    {
        &self.conn
    }
}

} // verus!
