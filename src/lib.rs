use vstd::prelude::*;

pub mod error;
pub mod laws;
pub mod scanner;
pub mod syntax;
pub mod value;

use error::Error;
use scanner::{scanned, Scanner};
use syntax::{parsed, tree, Expr, Parser};

verus! {

/// Scans and parses a source text into one expression tree, stopping at the
/// first syntax error of either stage.
pub fn run(source: String) -> (r: Result<Expr, Error>)
    requires
        source@.len() < usize::MAX,
    ensures
        tree(r) == match scanned(source@) {
            Ok(ts) => parsed(ts),
            Err(e) => Err(e),
        },
{
    let scanner = Scanner::new(source);
    let tokens = match scanner.scan_tokens() {
        Ok(ts) => ts,
        Err(e) => return Err(e),
    };
    let parser = Parser::new(tokens);
    parser.parse()
}

} // verus!
