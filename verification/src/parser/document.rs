//! A parsed document: the ordered top-level forms of one program, with
//! the compilation entry point exposed to hosts.

use vstd::prelude::*;
use crate::compiler::{spec_compile_doc, Compiler};
use crate::parser::loc::Range;
use crate::parser::node::{node_views, nodes_well_formed, spec_nodes_wf, Node};

verus! {

/// A parsed program: its top-level forms in order, and the source span
/// they cover.
pub struct Document {
    pub toplevels: Vec<Node>,
    pub range: Range,
}

impl Document {
    /// Whether every top-level form is fit for compilation (no empty call
    /// list anywhere).
    pub fn well_formed(&self) -> (r: bool)
        ensures
            r == spec_nodes_wf(node_views(self.toplevels@)),
    {
        nodes_well_formed(&self.toplevels)
    }

    /// Compile this document to bytecode. A well-formed tree always
    /// compiles, to exactly the encoding of its instruction sequence; a
    /// malformed tree (an empty call list) is a compiler-internal
    /// precondition violation, rejected rather than guessed about.
    pub fn compile(&self) -> (r: Result<Vec<u8>, crate::compiler::Error>)
        ensures
            match r {
                Ok(code) => spec_nodes_wf(node_views(self.toplevels@))
                    && code@ == spec_compile_doc(node_views(self.toplevels@)),
                Err(_) => !spec_nodes_wf(node_views(self.toplevels@)),
            },
    {
        if !self.well_formed() {
            return Err(crate::compiler::Error {});
        }
        let mut c = Compiler::new();
        c.doc(self);
        let code = c.finish();
        proof {
            assert(Seq::<u8>::empty() + spec_compile_doc(node_views(self.toplevels@))
                =~= spec_compile_doc(node_views(self.toplevels@)));
        }
        Ok(code)
    }
}

} // verus!
