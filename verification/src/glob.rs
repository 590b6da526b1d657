//! A compiled glob: a parsed expression together with the compiled anchored
//! pattern that decides whole-path matches.

use vstd::prelude::*;

use crate::encode::compile_tokens;
use crate::encode::regex_compiles;
use crate::encode::regex_captures;
use crate::encode::regex_match;
use crate::parse::spec_parse;
use crate::encode::spec_encode;
use crate::encode::CompiledRegex;
use crate::parse::parse;
use crate::parse::wf_glob;
use crate::parse::ParseError;
use crate::token::tokens_model;
use crate::token::Token;
use crate::token::Tokenized;

verus! {

/// Why a glob could not be built: its expression did not parse, or the
/// pattern engine refused the encoded pattern.
#[derive(Debug)]
pub enum GlobError {
    Parse(ParseError),
    Build,
}

/// A compiled glob expression.
#[derive(Debug)]
pub struct Glob {
    pub tokenized: Tokenized,
    pub program: CompiledRegex,
}

/// Whether a glob expression builds: it is grammatical and the engine
/// accepts its encoded pattern.
pub open spec fn spec_glob_builds(s: Seq<char>) -> bool {
    spec_parse(s) matches Some(gs) && regex_compiles(spec_encode(gs))
}

impl Glob {
    /// The pattern text of the compiled program.
    pub open spec fn spec_program_pattern(&self) -> Seq<char> {
        self.program.spec_pattern()
    }

    /// Whether this glob is as `new` builds it: its program was compiled
    /// from the anchored encoding of its well-formed token tree.
    pub open spec fn wf(&self) -> bool {
        &&& self.program.spec_pattern() == spec_encode(tokens_model(self.tokenized.tokens@))
        &&& wf_glob(tokens_model(self.tokenized.tokens@))
    }

    /// Parses and compiles a glob expression: it builds exactly when the
    /// expression is grammatical and the engine accepts the encoding, and
    /// the two failures are told apart.
    pub fn new(expression: &str) -> (r: Result<Glob, GlobError>)
        ensures
            match spec_parse(expression@) {
                Some(gs) => if regex_compiles(spec_encode(gs)) {
                    r matches Ok(g) && tokens_model(g.tokenized.tokens@) == gs
                } else {
                    r matches Err(e) && e is Build
                },
                None => r matches Err(e) && e matches GlobError::Parse(p) && p.expression@
                    == expression@,
            },
            r is Ok <==> spec_glob_builds(expression@),
            r matches Ok(g) ==> g.wf() && g.tokenized.expression@ == expression@,
    {
        let tokenized = match parse(expression) {
            Ok(t) => t,
            Err(e) => {
                return Err(GlobError::Parse(e));
            },
        };
        let program = match compile_tokens(&tokenized.tokens) {
            Some(p) => p,
            None => {
                return Err(GlobError::Build);
            },
        };
        Ok(Glob { tokenized, program })
    }

    /// The token tree of this glob.
    pub fn tokens(&self) -> (t: &Vec<Token>)
        ensures
            *t == self.tokenized.tokens,
    {
        &self.tokenized.tokens
    }

    /// Whether this glob matches the whole candidate path.
    pub fn is_match(&self, path: &String) -> (r: bool)
        ensures
            r == regex_match(self.spec_program_pattern(), path@),
            self.wf() ==> r == regex_match(
                spec_encode(tokens_model(self.tokenized.tokens@)),
                path@,
            ),
    {
        crate::encode::matches_candidate(&self.program, path)
    }

    /// The capture table of this glob over the whole candidate path,
    /// present exactly when the glob matches it: for each capturing token,
    /// in order, the byte range of the candidate it matched.
    pub fn captures(&self, path: &String) -> (r: Option<Vec<Option<(usize, usize)>>>)
        ensures
            r is Some <==> regex_match(self.spec_program_pattern(), path@),
            r matches Some(v) ==> v@ == regex_captures(self.spec_program_pattern(), path@),
    {
        crate::encode::captures_of(&self.program, path)
    }

    /// The compiled whole-pattern program of this glob.
    pub fn program(&self) -> (p: &CompiledRegex)
        ensures
            p.spec_pattern() == self.spec_program_pattern(),
    {
        &self.program
    }
}

} // verus!
