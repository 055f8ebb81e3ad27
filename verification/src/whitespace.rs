use vstd::prelude::*;

verus! {

/// The closed set of canonical whitespace values. Arbitrary whitespace runs
/// are quantized into one of these eight forms: only the presence of a
/// newline, one versus two-or-more newlines, and a single trailing tab of
/// indentation survive the quantization.
#[derive(Debug, Clone, Copy, PartialEq, Eq, Structural)]
pub enum Whitespace {
    Empty,
    OneSpace,
    TwoSpaces,
    Tab,
    Newline,
    NewlineTab,
    TwoNewlines,
    TwoNewlinesTab,
}

/// Number of newline bytes in `s`.
pub open spec fn newline_count(s: Seq<u8>) -> int
    decreases s.len(),
{
    if s.len() == 0 {
        0
    } else {
        newline_count(s.drop_last()) + if s.last() == 10u8 {
            1int
        } else {
            0int
        }
    }
}

/// Length of the run of tab bytes at the very end of `s`.
pub open spec fn trailing_tab_run(s: Seq<u8>) -> int
    decreases s.len(),
{
    if s.len() == 0 {
        0
    } else if s.last() == 9u8 {
        trailing_tab_run(s.drop_last()) + 1
    } else {
        0
    }
}

/// Number of tab bytes that come after the last newline of `s`
/// (over all of `s` if it has no newline).
pub open spec fn tabs_after_last_newline(s: Seq<u8>) -> int
    decreases s.len(),
{
    if s.len() == 0 {
        0
    } else if s.last() == 10u8 {
        0
    } else {
        tabs_after_last_newline(s.drop_last()) + if s.last() == 9u8 {
            1int
        } else {
            0int
        }
    }
}

/// The quantization of a raw whitespace run into the canonical set.
pub open spec fn quantize(s: Seq<u8>) -> Whitespace {
    let n = newline_count(s);
    if n == 0 {
        if trailing_tab_run(s) > 0 {
            Whitespace::Tab
        } else if s.len() == 0 {
            Whitespace::Empty
        } else if s.len() == 1 {
            Whitespace::OneSpace
        } else {
            Whitespace::TwoSpaces
        }
    } else {
        let indentation = tabs_after_last_newline(s);
        if n == 1 {
            if indentation == 0 {
                Whitespace::Newline
            } else {
                Whitespace::NewlineTab
            }
        } else {
            if indentation == 0 {
                Whitespace::TwoNewlines
            } else {
                Whitespace::TwoNewlinesTab
            }
        }
    }
}

/// The fixed literal text of a canonical whitespace value.
pub open spec fn canonical_text(w: Whitespace) -> Seq<u8> {
    match w {
        Whitespace::Empty => seq![],
        Whitespace::OneSpace => seq![32u8],
        Whitespace::TwoSpaces => seq![32u8, 32u8],
        Whitespace::Tab => seq![9u8],
        Whitespace::Newline => seq![10u8],
        Whitespace::NewlineTab => seq![10u8, 9u8],
        Whitespace::TwoNewlines => seq![10u8, 10u8],
        Whitespace::TwoNewlinesTab => seq![10u8, 10u8, 9u8],
    }
}

pub open spec fn is_spaces_spec(w: Whitespace) -> bool {
    w == Whitespace::Empty || w == Whitespace::OneSpace || w == Whitespace::TwoSpaces
}

/// What `set_indentation` does: toggle between the tab/no-tab sibling of the
/// same newline-count family; a spaces-only value is forced to `Tab` when
/// indentation is turned on, and `TwoSpaces` demotes to `OneSpace` when it is
/// turned off.
pub open spec fn with_indentation(w: Whitespace, indentation: bool) -> Whitespace {
    if indentation {
        match w {
            Whitespace::Empty => Whitespace::Tab,
            Whitespace::OneSpace => Whitespace::Tab,
            Whitespace::TwoSpaces => Whitespace::Tab,
            Whitespace::Tab => Whitespace::Tab,
            Whitespace::Newline => Whitespace::NewlineTab,
            Whitespace::NewlineTab => Whitespace::NewlineTab,
            Whitespace::TwoNewlines => Whitespace::TwoNewlinesTab,
            Whitespace::TwoNewlinesTab => Whitespace::TwoNewlinesTab,
        }
    } else {
        match w {
            Whitespace::Empty => Whitespace::Empty,
            Whitespace::OneSpace => Whitespace::OneSpace,
            Whitespace::TwoSpaces => Whitespace::OneSpace,
            Whitespace::Tab => Whitespace::Empty,
            Whitespace::Newline => Whitespace::Newline,
            Whitespace::NewlineTab => Whitespace::Newline,
            Whitespace::TwoNewlines => Whitespace::TwoNewlines,
            Whitespace::TwoNewlinesTab => Whitespace::TwoNewlines,
        }
    }
}

/// `None` for spaces-only forms, `Some(0)` for bare-newline forms, `Some(1)`
/// for forms that end in an indentation tab.
pub open spec fn indentation_spec(w: Whitespace) -> Option<usize> {
    match w {
        Whitespace::Empty => None,
        Whitespace::OneSpace => None,
        Whitespace::TwoSpaces => None,
        Whitespace::Newline => Some(0usize),
        Whitespace::TwoNewlines => Some(0usize),
        Whitespace::Tab => Some(1usize),
        Whitespace::NewlineTab => Some(1usize),
        Whitespace::TwoNewlinesTab => Some(1usize),
    }
}

impl Whitespace {
    /// Quantize a raw whitespace run into its canonical value.
    pub fn from_text(text: &[u8]) -> (w: Self)
        ensures
            w == quantize(text@),
    {
        let n = text.len();
        let mut newlines: usize = 0;
        let mut i: usize = 0;
        while i < n
            invariant
                0 <= i <= n,
                n == text@.len(),
                newlines == newline_count(text@.subrange(0, i as int)),
                newlines <= i,
            decreases n - i,
        {
            proof {
                assert(text@.subrange(0, i + 1).drop_last() =~= text@.subrange(0, i as int));
                assert(text@.subrange(0, i + 1).last() == text@[i as int]);
            }
            if text[i] == 10 {
                newlines = newlines + 1;
            }
            i = i + 1;
        }
        proof {
            assert(text@.subrange(0, n as int) =~= text@);
        }

        if newlines == 0 {
            let mut tabs: usize = 0;
            let mut j: usize = n;
            while j > 0 && text[j - 1] == 9
                invariant
                    0 <= j <= n,
                    n == text@.len(),
                    tabs == n - j,
                    trailing_tab_run(text@) == trailing_tab_run(text@.subrange(0, j as int)) + (n
                        - j),
                decreases j,
            {
                proof {
                    assert(text@.subrange(0, j as int).drop_last() =~= text@.subrange(
                        0,
                        j - 1,
                    ));
                    assert(text@.subrange(0, j as int).last() == text@[j - 1]);
                }
                j = j - 1;
                tabs = tabs + 1;
            }
            proof {
                if j > 0 {
                    assert(text@.subrange(0, j as int).last() == text@[j - 1]);
                }
            }
            if tabs > 0 {
                Self::Tab
            } else if n == 0 {
                Self::Empty
            } else if n == 1 {
                Self::OneSpace
            } else {
                Self::TwoSpaces
            }
        } else {
            let mut indentation: usize = 0;
            let mut j: usize = n;
            while j > 0 && text[j - 1] != 10
                invariant
                    0 <= j <= n,
                    n == text@.len(),
                    indentation <= n - j,
                    tabs_after_last_newline(text@) == tabs_after_last_newline(
                        text@.subrange(0, j as int),
                    ) + indentation,
                decreases j,
            {
                proof {
                    assert(text@.subrange(0, j as int).drop_last() =~= text@.subrange(
                        0,
                        j - 1,
                    ));
                    assert(text@.subrange(0, j as int).last() == text@[j - 1]);
                }
                if text[j - 1] == 9 {
                    indentation = indentation + 1;
                }
                j = j - 1;
            }
            proof {
                if j > 0 {
                    assert(text@.subrange(0, j as int).last() == text@[j - 1]);
                }
            }
            if newlines == 1 {
                if indentation == 0 {
                    Self::Newline
                } else {
                    Self::NewlineTab
                }
            } else {
                if indentation == 0 {
                    Self::TwoNewlines
                } else {
                    Self::TwoNewlinesTab
                }
            }
        }
    }

    /// The fixed literal text of this canonical value.
    pub fn text(self) -> (r: Vec<u8>)
        ensures
            r@ == canonical_text(self),
    {
        let mut r: Vec<u8> = Vec::new();
        match self {
            Self::Empty => {},
            Self::OneSpace => {
                r.push(32);
            },
            Self::TwoSpaces => {
                r.push(32);
                r.push(32);
            },
            Self::Tab => {
                r.push(9);
            },
            Self::Newline => {
                r.push(10);
            },
            Self::NewlineTab => {
                r.push(10);
                r.push(9);
            },
            Self::TwoNewlines => {
                r.push(10);
                r.push(10);
            },
            Self::TwoNewlinesTab => {
                r.push(10);
                r.push(10);
                r.push(9);
            },
        }
        proof {
            assert(r@ =~= canonical_text(self));
        }
        r
    }

    /// Whether this value contains no newline and no tab.
    pub fn is_spaces(self) -> (r: bool)
        ensures
            r == is_spaces_spec(self),
    {
        match self {
            Self::Empty | Self::OneSpace | Self::TwoSpaces => true,
            _ => false,
        }
    }

    /// Force the indentation that this run ends with on or off.
    pub fn set_indentation(&mut self, indentation: bool)
        ensures
            *final(self) == with_indentation(*old(self), indentation),
    {
        *self = if indentation {
            match *self {
                Self::Empty | Self::OneSpace | Self::TwoSpaces | Self::Tab => Self::Tab,
                Self::Newline | Self::NewlineTab => Self::NewlineTab,
                Self::TwoNewlines | Self::TwoNewlinesTab => Self::TwoNewlinesTab,
            }
        } else {
            match *self {
                Self::Empty | Self::Tab => Self::Empty,
                Self::OneSpace | Self::TwoSpaces => Self::OneSpace,
                Self::Newline | Self::NewlineTab => Self::Newline,
                Self::TwoNewlines | Self::TwoNewlinesTab => Self::TwoNewlines,
            }
        };
    }

    /// The indentation level this run ends with, if it encodes one.
    pub fn indentation(self) -> (r: Option<usize>)
        ensures
            r == indentation_spec(self),
    {
        match self {
            Self::Empty | Self::OneSpace | Self::TwoSpaces => None,
            Self::Newline | Self::TwoNewlines => Some(0),
            Self::Tab | Self::NewlineTab | Self::TwoNewlinesTab => Some(1),
        }
    }
}

/// Law: quantization is a retraction onto the canonical set — re-parsing the
/// literal text of any canonical whitespace value yields that same value.
pub proof fn lemma_quantize_canonical_text(w: Whitespace)
    ensures
        quantize(canonical_text(w)) == w,
{
    reveal_with_fuel(newline_count, 4);
    reveal_with_fuel(trailing_tab_run, 4);
    reveal_with_fuel(tabs_after_last_newline, 4);
    match w {
        Whitespace::Empty => {
            assert(canonical_text(w).len() == 0);
        },
        Whitespace::OneSpace => {
            let t = canonical_text(w);
            assert(t.drop_last() =~= seq![]);
        },
        Whitespace::TwoSpaces => {
            let t = canonical_text(w);
            assert(t.drop_last() =~= seq![32u8]);
            assert(t.drop_last().drop_last() =~= seq![]);
        },
        Whitespace::Tab => {
            let t = canonical_text(w);
            assert(t.drop_last() =~= seq![]);
        },
        Whitespace::Newline => {
            let t = canonical_text(w);
            assert(t.drop_last() =~= seq![]);
        },
        Whitespace::NewlineTab => {
            let t = canonical_text(w);
            assert(t.drop_last() =~= seq![10u8]);
            assert(t.drop_last().drop_last() =~= seq![]);
        },
        Whitespace::TwoNewlines => {
            let t = canonical_text(w);
            assert(t.drop_last() =~= seq![10u8]);
            assert(t.drop_last().drop_last() =~= seq![]);
        },
        Whitespace::TwoNewlinesTab => {
            let t = canonical_text(w);
            assert(t.drop_last() =~= seq![10u8, 10u8]);
            assert(t.drop_last().drop_last() =~= seq![10u8]);
            assert(t.drop_last().drop_last().drop_last() =~= seq![]);
        },
    }
}

/// Law: forcing indentation is idempotent — setting the same flag twice gives
/// the value that setting it once gives.
pub proof fn lemma_with_indentation_idempotent(w: Whitespace, indentation: bool)
    ensures
        with_indentation(with_indentation(w, indentation), indentation) == with_indentation(
            w,
            indentation,
        ),
{
}

} // verus!
