//! Rewrite events: what one reduction step did.

use vstd::prelude::*;

use crate::ast::expr::{color_gray, color_reset};
use crate::ast::model::RedS;
use vstd::string::StringExecFns;

verus! {

/// The escape sequence starting the event-kind color, when coloring is on.
pub open spec fn color_kind(color: bool) -> Seq<char> {
    if color {
        "\u{1b}[1m\u{1b}[38;5;3m"@
    } else {
        Seq::empty()
    }
}

/// The symbol of an alpha event: the Greek letter, or its ASCII stand-in.
pub open spec fn alpha_symbol(utf8: bool) -> Seq<char> {
    if utf8 {
        "α"@
    } else {
        "A"@
    }
}

/// The symbol of a beta event: the Greek letter, or its ASCII stand-in.
pub open spec fn beta_symbol(utf8: bool) -> Seq<char> {
    if utf8 {
        "β"@
    } else {
        "B"@
    }
}

/// The symbol of a contextual or cosmetic event: the Greek letter, or its
/// ASCII stand-in.
pub open spec fn gamma_symbol(utf8: bool) -> Seq<char> {
    if utf8 {
        "γ"@
    } else {
        "C"@
    }
}

/// The rendering of one event: an arrow, the kind's symbol, and its detail
/// in parentheses — `->β(x)`, `->α(x -> x_1)`, `->γ(left)` — colored by
/// terminal escapes when `color` is set; the terminal marker renders as
/// words.
pub open spec fn fmt_red(r: RedS, color: bool, utf8: bool) -> Seq<char> {
    let reset = color_reset(color);
    let kind = color_kind(color);
    let gray = color_gray(color);
    match r {
        RedS::Alpha(from, to) => gray + "->"@ + kind + alpha_symbol(utf8) + gray + "("@ + reset
            + from + gray + " -> "@ + reset + to + gray + ")"@ + reset,
        RedS::Beta(name) => gray + "->"@ + kind + beta_symbol(utf8) + gray + "("@ + reset + name
            + gray + ")"@ + reset,
        RedS::Contextual(side) => gray + "->"@ + kind + gamma_symbol(utf8) + gray + "("@ + reset
            + side + gray + ")"@ + reset,
        RedS::Simplification(what) => gray + "->"@ + kind + gamma_symbol(utf8) + gray + "("@
            + reset + what + gray + ")"@ + reset,
        RedS::NoReduction => "No reduction"@,
    }
}

/// One rewrite event of the engine.
#[derive(Debug, PartialEq)]
pub enum RedType {
    /// `(λx.M) N → M[x := N]`; carries the bound name for the trace.
    BetaReduction(String),
    /// `λx.M → λy.M[x := y]` with `y` not free in `M`; carries both names.
    AlphaConversion(String, String),
    /// A reduction inside a subterm; carries the side it happened on.
    ContextualReduction(String),
    /// A cosmetic renaming of the canonicalizer.
    Simplification(String),
    /// Terminal marker: the term is already in normal form.
    NoReduction,
}

impl View for RedType {
    type V = RedS;

    open spec fn view(&self) -> RedS {
        match self {
            RedType::BetaReduction(name) => RedS::Beta(name@),
            RedType::AlphaConversion(from, to) => RedS::Alpha(from@, to@),
            RedType::ContextualReduction(side) => RedS::Contextual(side@),
            RedType::Simplification(what) => RedS::Simplification(what@),
            RedType::NoReduction => RedS::NoReduction,
        }
    }
}

impl Clone for RedType {
    fn clone(&self) -> (r: Self)
        ensures
            r@ == self@,
    {
        match self {
            RedType::BetaReduction(name) => RedType::BetaReduction(name.clone()),
            RedType::AlphaConversion(from, to) => RedType::AlphaConversion(
                from.clone(),
                to.clone(),
            ),
            RedType::ContextualReduction(side) => RedType::ContextualReduction(side.clone()),
            RedType::Simplification(what) => RedType::Simplification(what.clone()),
            RedType::NoReduction => RedType::NoReduction,
        }
    }
}

impl RedType {
    /// The rendering of the event, colored by terminal escapes when `color`
    /// is set, with Greek letters when `utf8` is set and ASCII stand-ins
    /// otherwise.
    pub fn fmt_with_config(&self, color: bool, utf8: bool) -> (r: String)
        ensures
            r@ == fmt_red(self@, color, utf8),
    {
        proof {
            reveal_strlit("");
        }
        let reset: &str = if color {
            "\u{1b}[0m"
        } else {
            ""
        };
        let kind: &str = if color {
            "\u{1b}[1m\u{1b}[38;5;3m"
        } else {
            ""
        };
        let gray: &str = if color {
            "\u{1b}[0m\u{1b}[38;5;240m"
        } else {
            ""
        };
        match self {
            RedType::AlphaConversion(from, to) => {
                let mut out = String::new();
                out.append(gray);
                out.append("->");
                out.append(kind);
                out.append(if utf8 {
                    "α"
                } else {
                    "A"
                });
                out.append(gray);
                out.append("(");
                out.append(reset);
                out.append(from.as_str());
                out.append(gray);
                out.append(" -> ");
                out.append(reset);
                out.append(to.as_str());
                out.append(gray);
                out.append(")");
                out.append(reset);
                proof {
                    assert(out@ =~= fmt_red(self@, color, utf8));
                }
                out
            },
            RedType::BetaReduction(name) => {
                let mut out = String::new();
                out.append(gray);
                out.append("->");
                out.append(kind);
                out.append(if utf8 {
                    "β"
                } else {
                    "B"
                });
                out.append(gray);
                out.append("(");
                out.append(reset);
                out.append(name.as_str());
                out.append(gray);
                out.append(")");
                out.append(reset);
                proof {
                    assert(out@ =~= fmt_red(self@, color, utf8));
                }
                out
            },
            RedType::ContextualReduction(side) => {
                let mut out = String::new();
                out.append(gray);
                out.append("->");
                out.append(kind);
                out.append(if utf8 {
                    "γ"
                } else {
                    "C"
                });
                out.append(gray);
                out.append("(");
                out.append(reset);
                out.append(side.as_str());
                out.append(gray);
                out.append(")");
                out.append(reset);
                proof {
                    assert(out@ =~= fmt_red(self@, color, utf8));
                }
                out
            },
            RedType::Simplification(what) => {
                let mut out = String::new();
                out.append(gray);
                out.append("->");
                out.append(kind);
                out.append(if utf8 {
                    "γ"
                } else {
                    "C"
                });
                out.append(gray);
                out.append("(");
                out.append(reset);
                out.append(what.as_str());
                out.append(gray);
                out.append(")");
                out.append(reset);
                proof {
                    assert(out@ =~= fmt_red(self@, color, utf8));
                }
                out
            },
            RedType::NoReduction => {
                let mut out = String::new();
                out.append("No reduction");
                proof {
                    assert(out@ =~= fmt_red(self@, color, utf8));
                }
                out
            },
        }
    }
}

/// The events held by a vector of rewrite events, as model values.
pub open spec fn reds_of(v: Seq<RedType>) -> Seq<RedS> {
    v.map_values(|e: RedType| e@)
}

} // verus!
