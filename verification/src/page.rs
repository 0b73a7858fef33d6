use vstd::prelude::*;
use crate::cursor::{cursor_of, decode_cursor, encode_cursor, CursorError};
use crate::message::{views_of, Message, MessageView};
use crate::store::{opt_micros, page_spec, MessageStore};
use crate::timestamp::Timestamp;

verus! {

/// One listed message together with the cursor that resumes after it.
pub struct Edge {
    pub node: Message,
    pub cursor: String,
}

/// Page metadata. `has_next_page` is the heuristic "the page came back
/// full": it can announce a next page that turns out empty when the row
/// count is an exact multiple of the limit.
pub struct PageInfo {
    pub has_next_page: bool,
    pub end_cursor: Option<String>,
}

/// An ordered page of messages with their cursors and metadata.
pub struct Connection {
    pub edges: Vec<Edge>,
    pub page_info: PageInfo,
}

/// The page size a request is served with: the default is 20, sizes above
/// 100 are silently capped, and sizes below 1 are raised to 1, so a
/// non-positive request asks for the smallest page rather than none.
pub open spec fn spec_limit(first: Option<i32>) -> nat {
    let f: int = match first {
        None => 20,
        Some(n) => n as int,
    };
    if f > 100 {
        100
    } else if f < 1 {
        1
    } else {
        f as nat
    }
}

/// Law: the served page size never exceeds 100, whatever is requested.
pub fn effective_limit(first: Option<i32>) -> (r: usize)
    ensures
        r as nat == spec_limit(first),
        1 <= r <= 100,
{
    let f: i32 = match first {
        None => 20,
        Some(n) => n,
    };
    if f > 100 {
        100
    } else if f < 1 {
        1
    } else {
        f as usize
    }
}

/// The listed messages of an edge sequence, in order.
pub open spec fn edge_nodes(edges: Seq<Edge>) -> Seq<Message> {
    edges.map_values(|e: Edge| e.node)
}

/// Does this connection describe the page cut from `rows` by `bound` and
/// `limit`? Its edges are exactly that page in order, each under the cursor
/// of its instant; `has_next_page` says the page came back full; and
/// `end_cursor` is the last edge's cursor, absent on an empty page.
pub open spec fn conn_matches(
    c: Connection,
    rows: Seq<MessageView>,
    bound: Option<int>,
    limit: nat,
) -> bool {
    let page = page_spec(rows, bound, limit);
    &&& views_of(edge_nodes(c.edges@)) == page
    &&& forall|i: int|
        0 <= i < page.len() ==> (#[trigger] c.edges@[i].cursor)@ == cursor_of(page[i].timestamp)
    &&& c.page_info.has_next_page == (page.len() == limit)
    &&& (page.len() == 0 ==> c.page_info.end_cursor is None)
    &&& (page.len() > 0 ==> (c.page_info.end_cursor matches Some(s) && s@ == cursor_of(
        page.last().timestamp,
    )))
}

/// Wraps an already ordered page in edges and metadata: one cursor per
/// message, the full-page heuristic, and the cursor of the last message.
pub fn build_connection(messages: Vec<Message>, limit: usize) -> (c: Connection)
    ensures
        views_of(edge_nodes(c.edges@)) == views_of(messages@),
        forall|i: int|
            0 <= i < messages@.len() ==> (#[trigger] c.edges@[i].cursor)@ == cursor_of(
                messages@[i]@.timestamp,
            ),
        c.page_info.has_next_page == (messages@.len() == limit),
        messages@.len() == 0 ==> c.page_info.end_cursor is None,
        messages@.len() > 0 ==> (c.page_info.end_cursor matches Some(s) && s@ == cursor_of(
            messages@.last()@.timestamp,
        )),
{
    let n = messages.len();
    let has_next_page = n == limit;
    let end_cursor: Option<String> = if n > 0 {
        Some(encode_cursor(messages[n - 1].timestamp))
    } else {
        None
    };
    let mut edges: Vec<Edge> = Vec::new();
    let mut i: usize = 0;
    while i < n
        invariant
            0 <= i <= n,
            n == messages@.len(),
            edges@.len() == i,
            views_of(edge_nodes(edges@)) == views_of(messages@.take(i as int)),
            forall|k: int|
                0 <= k < i ==> (#[trigger] edges@[k].cursor)@ == cursor_of(
                    messages@[k]@.timestamp,
                ),
        decreases n - i,
    {
        let node = messages[i].clone();
        let cursor = encode_cursor(node.timestamp);
        let ghost gnode = node@;
        let ghost gcur = cursor@;
        let ghost pre = edges@;
        edges.push(Edge { node, cursor });
        proof {
            assert(edges@.len() == i + 1);
            assert(edges@[i as int].node@ == gnode);
            assert forall|k: int| 0 <= k < i + 1 implies views_of(edge_nodes(edges@))[k]
                == views_of(messages@.take(i + 1))[k] by {
                assert(edge_nodes(edges@)[k] == edges@[k].node);
                if k < i {
                    assert(edges@[k] == pre[k]);
                    assert(views_of(edge_nodes(pre))[k] == views_of(messages@.take(i as int))[k]);
                } else {
                    assert(gnode == messages@[k]@);
                }
            }
            assert(views_of(edge_nodes(edges@)) =~= views_of(messages@.take(i + 1)));
        }
        i = i + 1;
    }
    proof {
        assert(messages@.take(n as int) =~= messages@);
    }
    Connection { edges, page_info: PageInfo { has_next_page, end_cursor } }
}

/// Serves one list request against the store: clamps the page size, decodes
/// the optional resume cursor, queries the rows strictly below it, and wraps
/// them in edges and metadata.
///
/// Fails exactly when a cursor is supplied that no timestamp encodes to,
/// and then with the client-input error, never a wrong page.
pub fn paginate(store: &MessageStore, first: Option<i32>, after: Option<&str>) -> (r: Result<
    Connection,
    CursorError,
>)
    ensures
        after is None ==> r is Ok,
        r matches Err(e) ==> e == CursorError::InvalidCursor && (after matches Some(s)
            && forall|m: i64| s@ != cursor_of(m as int)),
        r matches Ok(c) ==> c.edges@.len() <= 100 && (after is None ==> conn_matches(
            c,
            store@.rows,
            None,
            spec_limit(first),
        )) && (after matches Some(s) ==> exists|m: i64|
            s@ == cursor_of(m as int) && conn_matches(
                c,
                store@.rows,
                Some(m as int),
                spec_limit(first),
            )),
{
    let limit = effective_limit(first);
    let bound: Option<Timestamp> = match after {
        None => None,
        Some(s) => {
            match decode_cursor(s) {
                Ok(t) => Some(t),
                Err(e) => {
                    return Err(e);
                },
            }
        },
    };
    let messages = store.query_ordered_before(bound, limit);
    let ghost mv = messages@;
    let c = build_connection(messages, limit);
    proof {
        let rows = store@.rows;
        let lim = spec_limit(first);
        let gb = opt_micros(bound);
        let page = page_spec(rows, gb, lim);
        assert(views_of(mv) == page);
        assert(views_of(edge_nodes(c.edges@)) == views_of(mv));
        assert(c.edges@.len() == mv.len());
        assert(mv.len() == page.len());
        assert forall|i: int| 0 <= i < page.len() implies (#[trigger] c.edges@[i].cursor)@
            == cursor_of(page[i].timestamp) by {
            assert(views_of(mv)[i] == mv[i]@);
        }
        if mv.len() > 0 {
            assert(views_of(mv)[mv.len() - 1] == mv.last()@);
        }
        assert(conn_matches(c, rows, gb, lim));
        if after is Some {
            let s = after->Some_0;
            let t = bound->Some_0;
            assert(s@ == cursor_of(t.micros as int));
            assert(gb == Some(t.micros as int));
        }
    }
    Ok(c)
}

} // verus!
