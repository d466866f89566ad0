//! Markup rendering of registry snapshots for the status page. Only the
//! pure text formatting lives here; serving the page is I/O and stays with
//! the embedding program.

use vstd::prelude::*;

verus! {

pub open spec fn ul_open() -> Seq<char> {
    seq!['<', 'u', 'l', '>']
}

pub open spec fn ul_close() -> Seq<char> {
    seq!['<', '/', 'u', 'l', '>']
}

pub open spec fn li_open() -> Seq<char> {
    seq!['<', 'l', 'i', '>']
}

pub open spec fn li_close() -> Seq<char> {
    seq!['<', '/', 'l', 'i', '>']
}

/// Each item wrapped as a list element, concatenated in order.
pub open spec fn items_markup(items: Seq<Seq<char>>) -> Seq<char>
    decreases items.len(),
{
    if items.len() == 0 {
        Seq::empty()
    } else {
        items_markup(items.drop_last()) + li_open() + items.last() + li_close()
    }
}

/// A whole unordered list.
pub open spec fn list_markup(items: Seq<Seq<char>>) -> Seq<char> {
    ul_open() + items_markup(items) + ul_close()
}

/// The status page's renderer owns no state; it only formats snapshots.
pub struct HttpServer {}

impl HttpServer {
    /// Renders a snapshot of strings as an unordered markup list.
    pub fn format_vec_as_list(vec: &Vec<String>) -> (r: String)
        ensures
            r@ == list_markup(vec.deep_view()),
    {
        proof {
            reveal_strlit("<ul>");
            reveal_strlit("</ul>");
            reveal_strlit("<li>");
            reveal_strlit("</li>");
        }
        let ghost items = vec.deep_view();
        let mut result = String::from_str("<ul>");
        proof {
            assert(result@ =~= ul_open() + items_markup(items.subrange(0, 0)));
        }
        let mut i: usize = 0;
        while i < vec.len()
            invariant
                i <= items.len(),
                items == vec.deep_view(),
                items.len() == vec@.len(),
                forall|j: int| 0 <= j < items.len() ==> #[trigger] items[j] == vec@[j]@,
                result@ == ul_open() + items_markup(items.subrange(0, i as int)),
            decreases items.len() - i,
        {
            proof {
                reveal_strlit("<li>");
                reveal_strlit("</li>");
            }
            result.append("<li>");
            result.append(vec[i].as_str());
            result.append("</li>");
            i = i + 1;
            proof {
                let pre = items.subrange(0, i - 1);
                let now = items.subrange(0, i as int);
                assert(now.drop_last() =~= pre);
                assert(now.last() == items[i - 1]);
                assert(result@ =~= ul_open() + items_markup(now));
            }
        }
        result.append("</ul>");
        proof {
            assert(items.subrange(0, items.len() as int) =~= items);
            assert(result@ =~= list_markup(items));
        }
        result
    }
}

} // verus!
