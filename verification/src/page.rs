//! Locating the two text blocks inside a fetched page.
//!
//! The page must hold a closing `</html>` tag. The starting-configuration
//! block sits after the `spsa-input` marker, between the next `>` and the
//! following `<`; the result block is found the same way from the
//! `spsa-output` marker, searching onward from the first block.

use vstd::prelude::*;

use crate::record::{Error, Missing};
use crate::text::{find_from, find_pat, lemma_find_from_skip, lemma_find_from_spec};

verus! {

pub open spec fn html_close() -> Seq<char> {
    "</html>"@
}

pub open spec fn input_marker() -> Seq<char> {
    "spsa-input"@
}

pub open spec fn output_marker() -> Seq<char> {
    "spsa-output"@
}

/// True when `p` occurs anywhere in `s`.
pub open spec fn contains_pat(s: Seq<char>, p: Seq<char>) -> bool {
    find_from(s, p, 0) >= 0
}

/// Which blocks a page yields: the input and output block texts, or the
/// first marker that cannot be found.
pub open spec fn extract_spec(t: Seq<char>) -> Result<(Seq<char>, Seq<char>), Missing> {
    if !contains_pat(t, html_close()) {
        Err(Missing::HtmlClose)
    } else {
        let i1 = find_from(t, input_marker(), 0);
        if i1 < 0 {
            Err(Missing::InputMarker)
        } else {
            let r1 = t.skip(i1 + input_marker().len());
            let i2 = find_from(r1, seq!['>'], 0);
            if i2 < 0 {
                Err(Missing::InputTagEnd)
            } else {
                let r2 = r1.skip(i2 + 1);
                let i3 = find_from(r2, seq!['<'], 0);
                if i3 < 0 {
                    Err(Missing::InputTextEnd)
                } else {
                    let input = r2.take(i3);
                    let r3 = r2.skip(i3 + 1);
                    let i4 = find_from(r3, output_marker(), 0);
                    if i4 < 0 {
                        Err(Missing::OutputMarker)
                    } else {
                        let r4 = r3.skip(i4 + output_marker().len());
                        let i5 = find_from(r4, seq!['>'], 0);
                        if i5 < 0 {
                            Err(Missing::OutputTagEnd)
                        } else {
                            let r5 = r4.skip(i5 + 1);
                            let i6 = find_from(r5, seq!['<'], 0);
                            if i6 < 0 {
                                Err(Missing::OutputTextEnd)
                            } else {
                                Ok((input, r5.take(i6)))
                            }
                        }
                    }
                }
            }
        }
    }
}

/// True when the page carries its closing tag, per [`contains_pat`].
pub fn page_is_complete(text: &str) -> (r: bool)
    ensures
        r == contains_pat(text@, html_close()),
{
    proof {
        reveal_strlit("</html>");
    }
    match find_pat(text, 0, "</html>") {
        Some(_) => true,
        None => false,
    }
}

/// Extracts the two blocks, exactly as [`extract_spec`] describes; a missing
/// marker is reported by name.
pub fn extract_blocks(text: &str) -> (r: Result<(String, String), Error>)
    ensures
        match extract_spec(text@) {
            Ok(blocks) => r matches Ok(p) && p.0@ == blocks.0 && p.1@ == blocks.1,
            Err(m) => r == Err::<(String, String), Error>(Error::MalformedPage { missing: m }),
        },
{
    let n = text.unicode_len();
    if !page_is_complete(text) {
        return Err(Error::MalformedPage { missing: Missing::HtmlClose });
    }
    let m_in = "spsa-input";
    let ml_in = m_in.unicode_len();
    proof {
        reveal_strlit("spsa-input");
    }
    let i1 = match find_pat(text, 0, m_in) {
        Some(j) => j,
        None => {
            return Err(Error::MalformedPage { missing: Missing::InputMarker });
        },
    };
    proof {
        lemma_find_from_spec(text@, input_marker(), 0);
    }
    let base1 = i1 + ml_in;
    let ghost r1 = text@.skip(i1 + input_marker().len());
    proof {
        lemma_find_from_skip(text@, seq!['>'], base1 as int, base1 as int);
        assert(r1 =~= text@.skip(base1 as int));
        reveal_strlit(">");
        assert(">"@ =~= seq!['>']);
    }
    let i2 = match find_pat(text, base1, ">") {
        Some(j) => j,
        None => {
            return Err(Error::MalformedPage { missing: Missing::InputTagEnd });
        },
    };
    proof {
        lemma_find_from_spec(text@, seq!['>'], base1 as int);
        lemma_find_from_skip(text@, seq!['<'], i2 + 1, i2 + 1);
    }
    let ghost gi2 = i2 - base1;
    let ghost r2 = r1.skip(gi2 + 1);
    proof {
        assert(r2 =~= text@.skip(i2 + 1));
        reveal_strlit("<");
        assert("<"@ =~= seq!['<']);
    }
    let i3 = match find_pat(text, i2 + 1, "<") {
        Some(j) => j,
        None => {
            return Err(Error::MalformedPage { missing: Missing::InputTextEnd });
        },
    };
    proof {
        lemma_find_from_spec(text@, seq!['<'], i2 + 1);
    }
    let input = text.substring_char(i2 + 1, i3);
    let ghost gi3 = i3 - (i2 + 1);
    let ghost r3 = r2.skip(gi3 + 1);
    proof {
        assert(input@ =~= r2.take(gi3));
        assert(r3 =~= text@.skip(i3 + 1));
        lemma_find_from_skip(text@, output_marker(), i3 + 1, i3 + 1);
    }
    let m_out = "spsa-output";
    let ml_out = m_out.unicode_len();
    proof {
        reveal_strlit("spsa-output");
    }
    let i4 = match find_pat(text, i3 + 1, m_out) {
        Some(j) => j,
        None => {
            return Err(Error::MalformedPage { missing: Missing::OutputMarker });
        },
    };
    proof {
        lemma_find_from_spec(text@, output_marker(), i3 + 1);
    }
    let base2 = i4 + ml_out;
    let ghost gi4 = i4 - (i3 + 1);
    let ghost r4 = r3.skip(gi4 + output_marker().len());
    proof {
        assert(r4 =~= text@.skip(base2 as int));
        lemma_find_from_skip(text@, seq!['>'], base2 as int, base2 as int);
    }
    let i5 = match find_pat(text, base2, ">") {
        Some(j) => j,
        None => {
            return Err(Error::MalformedPage { missing: Missing::OutputTagEnd });
        },
    };
    proof {
        lemma_find_from_spec(text@, seq!['>'], base2 as int);
    }
    let ghost gi5 = i5 - base2;
    let ghost r5 = r4.skip(gi5 + 1);
    proof {
        assert(r5 =~= text@.skip(i5 + 1));
        lemma_find_from_skip(text@, seq!['<'], i5 + 1, i5 + 1);
    }
    let i6 = match find_pat(text, i5 + 1, "<") {
        Some(j) => j,
        None => {
            return Err(Error::MalformedPage { missing: Missing::OutputTextEnd });
        },
    };
    proof {
        lemma_find_from_spec(text@, seq!['<'], i5 + 1);
    }
    let output = text.substring_char(i5 + 1, i6);
    proof {
        assert(output@ =~= r5.take(gi5 + 1 + i6 - (i5 + 1) - (gi5 + 1)));
        assert(output@ =~= r5.take(i6 - (i5 + 1)));
    }
    Ok((String::from_str(input), String::from_str(output)))
}

} // verus!
