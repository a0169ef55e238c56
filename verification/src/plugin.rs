use vstd::prelude::*;

verus! {

/// What a code generator answers the compiler with.
#[derive(Debug, Clone, Default, PartialEq)]
pub struct CodeGeneratorResponse {
    pub error: Option<String>,
    pub supported_features: Option<u64>,
    pub file: Vec<CodeGeneratorResponseFile>,
}

/// One generated file inside a response.
#[derive(Debug, Clone, Default, PartialEq)]
pub struct CodeGeneratorResponseFile {
    pub name: Option<String>,
    pub insertion_point: Option<String>,
    pub content: Option<String>,
}

/// The features a generator may declare support for.
#[derive(Debug, Clone, Copy, PartialEq, Eq, Structural)]
pub enum CodeGeneratorResponseFeature {
    FeatureNone,
    Proto3Optional,
}

impl CodeGeneratorResponseFeature {
    /// The numeric code each feature is declared with.
    pub open spec fn spec_number(self) -> u64 {
        match self {
            CodeGeneratorResponseFeature::FeatureNone => 0,
            CodeGeneratorResponseFeature::Proto3Optional => 1,
        }
    }

    pub fn number(self) -> (r: u64)
        ensures
            r == self.spec_number(),
    {
        match self {
            CodeGeneratorResponseFeature::FeatureNone => 0,
            CodeGeneratorResponseFeature::Proto3Optional => 1,
        }
    }
}

} // verus!
