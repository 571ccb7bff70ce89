use vstd::prelude::*;
use crate::error::RenderError;
use crate::json::{Json, StrMap};

verus! {

/// What a block parameter is bound to.
#[derive(Debug, PartialEq, Eq)]
pub enum BlockParamHolder {
    /// A place in the context data, given by its path from the top.
    Path(Vec<String>),
    /// A value of its own.
    Value(Json),
}

/// The parameters that a block binds, by name.
#[derive(Debug)]
pub struct BlockParams {
    data: StrMap<BlockParamHolder>,
}

impl BlockParams {
    /// The parameters by name.
    pub closed spec fn spec_map(self) -> Map<Seq<char>, BlockParamHolder> {
        self.data.spec_map()
    }

    /// No parameters.
    pub fn new() -> (r: BlockParams)
        ensures
            r.spec_map() == Map::<Seq<char>, BlockParamHolder>::empty(),
    {
        BlockParams { data: StrMap::new() }
    }

    /// Binds `k` to the place in the context data at `path`.
    pub fn add_path(&mut self, k: &str, path: Vec<String>) -> (r: Result<(), RenderError>)
        ensures
            r is Ok,
            final(self).spec_map() == old(self).spec_map().insert(k@, BlockParamHolder::Path(path)),
    {
        self.data.insert(k.to_owned(), BlockParamHolder::Path(path));
        Ok(())
    }

    /// Binds `k` to the value `v`.
    pub fn add_value(&mut self, k: &str, v: Json) -> (r: Result<(), RenderError>)
        ensures
            r is Ok,
            final(self).spec_map() == old(self).spec_map().insert(k@, BlockParamHolder::Value(v)),
    {
        self.data.insert(k.to_owned(), BlockParamHolder::Value(v));
        Ok(())
    }

    /// What `k` is bound to, if anything.
    pub fn get(&self, k: &str) -> (r: Option<&BlockParamHolder>)
        ensures
            r matches Some(h) ==> self.spec_map().contains_key(k@) && *h == self.spec_map()[k@],
            r is None ==> !self.spec_map().contains_key(k@),
    {
        self.data.get(k)
    }
}

/// The state of one enclosing block while a template is rendered.
#[derive(Debug)]
pub struct BlockContext {
    base_path: Vec<String>,
    block_params: BlockParams,
}

impl BlockContext {
    /// The path, from the top of the context data, of the value the block
    /// is about.
    pub closed spec fn spec_base_path(self) -> Vec<String> {
        self.base_path
    }

    /// The parameters the block binds.
    pub closed spec fn spec_block_params(self) -> BlockParams {
        self.block_params
    }

    /// What the parameter `name` of the block is bound to.
    pub open spec fn spec_block_param(self, name: Seq<char>) -> Option<BlockParamHolder> {
        self.spec_block_params().spec_map().get(name)
    }

    /// A block about the top of the data, with no parameters.
    pub fn new() -> (r: BlockContext)
        ensures
            r.spec_base_path()@.len() == 0,
            r.spec_block_params().spec_map() == Map::<Seq<char>, BlockParamHolder>::empty(),
    {
        BlockContext { base_path: Vec::new(), block_params: BlockParams::new() }
    }

    pub fn base_path(&self) -> (r: &Vec<String>)
        ensures
            *r == self.spec_base_path(),
    {
        &self.base_path
    }

    pub fn base_path_mut(&mut self) -> (r: &mut Vec<String>)
        ensures
            *r == old(self).spec_base_path(),
            final(self).spec_base_path() == *final(r),
            final(self).spec_block_params() == old(self).spec_block_params(),
    {
        &mut self.base_path
    }

    /// What the parameter `name` of the block is bound to, if anything.
    pub fn get_block_param(&self, name: &str) -> (r: Option<&BlockParamHolder>)
        ensures
            r matches Some(h) ==> self.spec_block_param(name@) == Some(*h),
            r is None ==> self.spec_block_param(name@) is None,
    {
        self.block_params.get(name)
    }

    pub fn set_block_params(&mut self, block_params: BlockParams)
        ensures
            final(self).spec_block_params() == block_params,
            final(self).spec_base_path() == old(self).spec_base_path(),
    {
        self.block_params = block_params;
    }
}

} // verus!
