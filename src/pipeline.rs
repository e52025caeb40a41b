//! The stages of a run, in order. Each stage is a marker; running one is the
//! caller's business.
use vstd::prelude::*;

verus! {

pub struct Stage0Scaffold;

pub struct Stage1Input;

pub struct Stage2H5ad;

pub struct Stage3ExprCache;

pub struct Stage4Geneset;

pub struct Stage5Math;

pub struct Stage6Axes;

pub struct Stage7Integrate;

pub struct Stage8Risk;

pub struct Stage9Timecourse;

pub struct Stage10Output;

impl Stage0Scaffold {
    pub fn new() -> Self {
        Stage0Scaffold
    }
}

impl Stage1Input {
    pub fn new() -> Self {
        Stage1Input
    }
}

impl Stage2H5ad {
    pub fn new() -> Self {
        Stage2H5ad
    }
}

impl Stage3ExprCache {
    pub fn new() -> Self {
        Stage3ExprCache
    }
}

impl Stage4Geneset {
    pub fn new() -> Self {
        Stage4Geneset
    }
}

impl Stage5Math {
    pub fn new() -> Self {
        Stage5Math
    }
}

impl Stage6Axes {
    pub fn new() -> Self {
        Stage6Axes
    }
}

impl Stage7Integrate {
    pub fn new() -> Self {
        Stage7Integrate
    }
}

impl Stage8Risk {
    pub fn new() -> Self {
        Stage8Risk
    }
}

impl Stage9Timecourse {
    pub fn new() -> Self {
        Stage9Timecourse
    }
}

impl Stage10Output {
    pub fn new() -> Self {
        Stage10Output
    }
}

} // verus!
