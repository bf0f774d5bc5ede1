//! Lists of items.

use crate::grammar::{spec_items, spec_list, spec_listhead, spec_nodes_until, taken, Node};
use crate::{items_of, nodes_of, segments_until, Segment};
use crate::scan::{
    all_ascii, lemma_ascii_text, lemma_boundary_after_ascii, strip_byte, strip_no_case, yields,
    NoMatch, CLOSE_BRACKET, DIGIT_ONE, EQUALS, LETTER_A,
};
use vstd::prelude::*;
use vstd::string::StringSliceAdditionalSpecFns;

verus! {

/// The general appearance of a list.
#[derive(PartialEq, Eq, Structural, Debug, Clone, Copy, Hash)]
pub enum ListStyle {
    /// No particular order; items usually marked with bullet points.
    ///
    /// Like CSS `list-style-type` `disc`.
    Unordered,
    /// Items numbered in increasing order.
    ///
    /// Like CSS `list-style-type` `decimal`.
    Numeric,
    /// Items marked with latin letters.
    ///
    /// Like CSS `list-style-type` `lower-alpha`.
    Alphabetic,
}

/// Recognizes a list: `[list][*] Item [*] Item[/list]`
pub fn list<'a>(input: &'a str) -> (r: Result<(&'a str, Segment<'a>), NoMatch>)
    ensures
        r matches Ok((rest, segment)) ==> yields(
            input,
            rest,
            segment@,
            spec_list(input.spec_bytes()),
        ),
        r is Err ==> spec_list(input.spec_bytes()) is None,
    decreases input.spec_bytes().len(), 16int, 0int,
{
    let (after_head, style) = match listhead(input) {
        Ok(found) => found,
        Err(e) => { return Err(e); },
    };
    let (after_items, items) = list_items(after_head);
    proof {
        reveal_strlit("[/list]");
        lemma_ascii_text("[/list]");
    }
    let ghost n = taken(spec_listhead(input.spec_bytes()));
    let ghost m = spec_items(
        after_head.spec_bytes(),
        "[*]".spec_bytes(),
        "[/list]".spec_bytes(),
    ).1;
    proof {
        assert(after_items.spec_bytes() =~= input.spec_bytes().skip(n + m));
    }
    match strip_no_case(after_items, "[/list]") {
        Some(rest) => {
            proof {
                assert(rest.spec_bytes() =~= input.spec_bytes().skip(
                    n + m + "[/list]".spec_bytes().len(),
                ));
            }
            Ok((rest, Segment::List { style, items }))
        },
        None => Err(NoMatch),
    }
}

/// Recognizes the items of a list, each with its bullet. Returns what is
/// left and the items.
pub fn list_items<'a>(input: &'a str) -> (r: (&'a str, Vec<Vec<Segment<'a>>>))
    ensures
        items_of(r.1@) == spec_items(
            input.spec_bytes(),
            "[*]".spec_bytes(),
            "[/list]".spec_bytes(),
        ).0,
        0 <= spec_items(input.spec_bytes(), "[*]".spec_bytes(), "[/list]".spec_bytes()).1
            <= input.spec_bytes().len(),
        r.0.spec_bytes() == input.spec_bytes().skip(
            spec_items(input.spec_bytes(), "[*]".spec_bytes(), "[/list]".spec_bytes()).1,
        ),
    decreases input.spec_bytes().len(), 22int, 0int,
{
    proof {
        reveal_strlit("[*]");
        lemma_ascii_text("[*]");
    }
    let ghost b = input.spec_bytes();
    let ghost bullet = "[*]".spec_bytes();
    let ghost close = "[/list]".spec_bytes();
    let mut items: Vec<Vec<Segment<'a>>> = Vec::new();
    let mut cur: &'a str = input;
    let ghost mut done: int = 0;
    proof {
        assert(b.skip(0) =~= b);
        assert(items_of(items@) + spec_items(b, bullet, close).0 =~= spec_items(
            b,
            bullet,
            close,
        ).0);
    }
    loop
        invariant
            b == input.spec_bytes(),
            bullet == "[*]".spec_bytes(),
            close == "[/list]".spec_bytes(),
            bullet.len() == 3,
            all_ascii(bullet),
            0 <= done <= b.len(),
            cur.spec_bytes() == b.skip(done),
            spec_items(b, bullet, close).0 == items_of(items@) + spec_items(
                cur.spec_bytes(),
                bullet,
                close,
            ).0,
            spec_items(b, bullet, close).1 == done + spec_items(cur.spec_bytes(), bullet, close).1,
        decreases cur.spec_bytes().len(),
    {
        match strip_no_case(cur, "[*]") {
            Some(after_bullet) => {
                let (rest, item) = segments_until(after_bullet, &["[*]", "[/list]"]);
                proof {
                    let c = cur.spec_bytes();
                    let m = spec_nodes_until(after_bullet.spec_bytes(), seq![bullet, close]).1;
                    assert(rest.spec_bytes() =~= c.skip(3 + m));
                    let tail = spec_items(rest.spec_bytes(), bullet, close);
                    assert(spec_items(c, bullet, close) == (
                        seq![nodes_of(item@)] + tail.0,
                        3 + m + tail.1,
                    ));
                    assert(items_of(items@.push(item)) =~= items_of(items@).push(nodes_of(item@)));
                    assert(items_of(items@) + (seq![nodes_of(item@)] + tail.0) =~= items_of(
                        items@,
                    ).push(nodes_of(item@)) + tail.0);
                    assert(rest.spec_bytes() =~= b.skip(done + 3 + m));
                    done = done + 3 + m;
                }
                items.push(item);
                cur = rest;
            },
            None => {
                proof {
                    assert(items_of(items@) + Seq::<Seq<Node>>::empty() =~= items_of(items@));
                }
                return (cur, items);
            },
        }
    }
}

/// Recognizes the opening tag of a list and tells its style.
pub fn listhead<'a>(input: &'a str) -> (r: Result<(&'a str, ListStyle), NoMatch>)
    ensures
        r matches Ok((rest, style)) ==> yields(
            input,
            rest,
            style,
            spec_listhead(input.spec_bytes()),
        ),
        r is Err ==> spec_listhead(input.spec_bytes()) is None,
{
    broadcast use vstd::utf8::encode_utf8_valid_utf8;

    proof {
        reveal(spec_listhead);
        reveal_strlit("[list");
        lemma_ascii_text("[list");
    }
    let after = match strip_no_case(input, "[list") {
        Some(after) => after,
        None => { return Err(NoMatch); },
    };
    let ghost open = "[list".spec_bytes().len() as int;
    let b = after.as_bytes();
    if b.len() >= 2 && b[0] == EQUALS && (b[1] == LETTER_A || b[1] == DIGIT_ONE) {
        let style = if b[1] == LETTER_A {
            ListStyle::Alphabetic
        } else {
            ListStyle::Numeric
        };
        if b.len() >= 3 && b[2] == CLOSE_BRACKET {
            proof {
                lemma_boundary_after_ascii(after.spec_bytes(), 3);
            }
            let rest = after.split_at(3).1;
            proof {
                assert(rest.spec_bytes() =~= input.spec_bytes().skip(open + 3));
            }
            Ok((rest, style))
        } else {
            Err(NoMatch)
        }
    } else {
        match strip_byte(after, CLOSE_BRACKET) {
            Some(rest) => {
                proof {
                    assert(rest.spec_bytes() =~= input.spec_bytes().skip(open + 1));
                }
                Ok((rest, ListStyle::Unordered))
            },
            None => Err(NoMatch),
        }
    }
}

} // verus!
