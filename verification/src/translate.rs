//! The oldest translator: a purely textual echo that only enforces the
//! single-word rule.

use vstd::prelude::*;
use crate::scrambler::text;

verus! {

/// Describes the input instead of translating it: the empty input maps to the
/// empty string, a single word to a fixed phrase around it, and anything with
/// more than one word to an error naming the input.
pub fn translate_word(word: &str) -> (r: Result<String, String>)
    ensures
        ({
            let toks = text::tokens_of(word@);
            match r {
                Ok(s) => toks.len() <= 1 && (toks.len() == 0 ==> s@ =~= Seq::<char>::empty())
                    && (toks.len() == 1 ==> s@ =~= "Translation of \""@ + word@ + "\"."@),
                Err(m) => toks.len() > 1 && m@ =~= "Error! I can only translate single words. The input \""@
                    + word@ + "\" is not a single word."@,
            }
        }),
{
    let toks = text::split_tokens(word);
    if toks.len() == 0 {
        Ok(String::new())
    } else if toks.len() == 1 {
        let mut s = String::from_str("Translation of \"");
        s.append(word);
        s.append("\".");
        Ok(s)
    } else {
        let mut m = String::from_str("Error! I can only translate single words. The input \"");
        m.append(word);
        m.append("\" is not a single word.");
        Err(m)
    }
}

} // verus!
