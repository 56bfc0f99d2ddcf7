//! Choosing a target language and running its generator.
use vstd::prelude::*;
use crate::dart::{DartCodeGenerator, pipeline_result};
use crate::environment::GenerationError;
use crate::types::{Program, decl_count};

verus! {

/// The target languages classes can be generated for.
#[derive(Debug, Clone, Copy, PartialEq, Eq)]
pub enum Language {
    Dart,
}

/// A generator of target-language source text for a parsed program.
pub trait CodeGenerator {
    fn gen_code(&self, program: &Program) -> (r: Result<String, GenerationError>)
        requires
            decl_count(program.types@) < usize::MAX,
    ;
}

impl CodeGenerator for DartCodeGenerator {
    /// Compiles `program` to Dart classes, as `gen_program` states.
    fn gen_code(&self, program: &Program) -> (r: Result<String, GenerationError>)
        ensures
            pipeline_result(program, r),
    {
        self.gen_program(program)
    }
}

/// The generator for `language`.
pub fn generator_for(language: Language) -> (r: DartCodeGenerator) {
    match language {
        Language::Dart => DartCodeGenerator::new(),
    }
}

} // verus!
