//! How requests to the market-data service are answered.

use vstd::prelude::*;
use vstd::string::StringExecFns;

use crate::http::{
    error_json, format_error, header_pair, is_bearer, nth_word_or, number_or, query_param,
    query_value, read_header, required, required_value, split_target, target_path, target_query,
    value_or, word_or,
};
use crate::ingress::side_in;
use crate::order::Order;
use crate::settings::setting;
use crate::text::{chars_of, has_prefix, is_text, number, parse_number, strip_prefix, text_of};
use crate::types::{InstrumentId, OrderId, OrderType, Side, TimeInForce};

verus! {

/// The head of a request.
#[derive(Debug)]
pub struct MarketRequest {
    pub method: String,
    pub target: String,
    pub ws_key: Option<String>,
    pub authorization: Option<String>,
}

/// What the head of a request says.
#[verifier::ext_equal]
pub struct MarketRequestView {
    pub method: Seq<char>,
    pub target: Seq<char>,
    pub ws_key: Option<Seq<char>>,
    pub authorization: Option<Seq<char>>,
}

/// What an optional text says.
pub open spec fn optional(text: Option<String>) -> Option<Seq<char>> {
    match text {
        Some(t) => Some(t@),
        None => None,
    }
}

impl View for MarketRequest {
    type V = MarketRequestView;

    open spec fn view(&self) -> MarketRequestView {
        MarketRequestView {
            method: self.method@,
            target: self.target@,
            ws_key: optional(self.ws_key),
            authorization: optional(self.authorization),
        }
    }
}

impl MarketRequest {
    /// Reads a request line.
    pub fn first(line: &str) -> (r: MarketRequest)
        ensures
            r@ == (MarketRequestView {
                method: word_or(line@, 0, "GET"@),
                target: word_or(line@, 1, "/"@),
                ws_key: None,
                authorization: None,
            }),
    {
        let chars = chars_of(line);
        MarketRequest {
            method: nth_word_or(chars.as_slice(), 0, "GET"),
            target: nth_word_or(chars.as_slice(), 1, "/"),
            ws_key: None,
            authorization: None,
        }
    }

    /// Reads a header line.
    pub fn header(&mut self, line: &str)
        ensures
            final(self)@ == match header_pair(line@) {
                None => old(self)@,
                Some((name, value)) => MarketRequestView {
                    ws_key: if name == "sec-websocket-key"@ {
                        Some(value)
                    } else {
                        old(self)@.ws_key
                    },
                    authorization: if name == "authorization"@ {
                        Some(value)
                    } else {
                        old(self)@.authorization
                    },
                    ..old(self)@
                },
            },
    {
        if let Some((name, value)) = read_header(line) {
            if is_text(name.as_slice(), "sec-websocket-key") {
                self.ws_key = Some(text_of(value.as_slice()));
            }
            if is_text(name.as_slice(), "authorization") {
                self.authorization = Some(text_of(value.as_slice()));
            }
        }
    }
}

/// The token that is asked for, if one is set.
pub open spec fn set_token(configured: Option<&str>) -> Option<Seq<char>> {
    match configured {
        Some(token) => if token@.len() > 0 {
            Some(token@)
        } else {
            None
        },
        None => None,
    }
}

/// Why access is denied.
pub open spec fn denial(authorization: Option<Seq<char>>, token: Option<Seq<char>>) -> Option<
    (Seq<char>, Seq<char>),
> {
    match token {
        None => Some(
            ("503 Service Unavailable"@, error_json("admin access is not configured"@)),
        ),
        Some(token) => if authorization == Some("Bearer "@ + token) {
            None
        } else {
            Some(("401 Unauthorized"@, error_json("admin authorization required"@)))
        },
    }
}

/// Whether a request may do what needs a token; else status and body of the
/// answer.
pub fn admin_access(authorization: &Option<String>, configured: Option<&str>) -> (r: Result<
    (),
    (&'static str, String),
>)
    ensures
        match r {
            Ok(()) => denial(optional(*authorization), set_token(configured)) is None,
            Err((status, body)) => denial(optional(*authorization), set_token(configured)) == Some(
                (status@, body@),
            ),
        },
{
    let token = match configured {
        Some(token) => token,
        None => {
            return Err(
                ("503 Service Unavailable", format_error("admin access is not configured")),
            );
        },
    };
    let letters = chars_of(token);
    if letters.len() == 0 {
        return Err(("503 Service Unavailable", format_error("admin access is not configured")));
    }
    match authorization {
        Some(value) => {
            let chars = chars_of(value.as_str());
            if is_bearer(chars.as_slice(), token) {
                Ok(())
            } else {
                Err(("401 Unauthorized", format_error("admin authorization required")))
            }
        },
        None => Err(("401 Unauthorized", format_error("admin authorization required"))),
    }
}

/// What is wrong with the order that a query describes, if anything.
pub open spec fn order_fault(query: Seq<char>) -> Option<Seq<char>> {
    match side_in(query) {
        None => Some("side must be buy or sell"@),
        Some(_) => match required_value(query, "instrument"@, u32::MAX as nat) {
            Err(e) => Some(e),
            Ok(_) => match required_value(query, "order_id"@, u64::MAX as nat) {
                Err(e) => Some(e),
                Ok(_) => match required_value(query, "price"@, u64::MAX as nat) {
                    Err(e) => Some(e),
                    Ok(_) => match required_value(query, "qty"@, u64::MAX as nat) {
                        Err(e) => Some(e),
                        Ok(_) => match required_value(query, "user"@, u64::MAX as nat) {
                            Err(e) => Some(e),
                            Ok(_) => None,
                        },
                    },
                },
            },
        },
    }
}

/// The order that a query describes, if there is nothing wrong with it.
pub open spec fn described_order(query: Seq<char>) -> Order {
    let qty = required_value(query, "qty"@, u64::MAX as nat)->Ok_0;
    Order {
        id: OrderId(required_value(query, "order_id"@, u64::MAX as nat)->Ok_0),
        instrument: InstrumentId(
            required_value(query, "instrument"@, u32::MAX as nat)->Ok_0 as u32,
        ),
        user: required_value(query, "user"@, u64::MAX as nat)->Ok_0,
        side: side_in(query)->0,
        order_type: OrderType::Limit,
        tif: TimeInForce::Gtc,
        price: required_value(query, "price"@, u64::MAX as nat)->Ok_0,
        quantity: qty,
        remaining: qty,
        timestamp: 0,
    }
}

/// Reads the limit order that a query describes; else the body of the answer.
pub fn new_order_from_query(query: &[char]) -> (r: Result<Order, String>)
    ensures
        match r {
            Ok(order) => order_fault(query@) is None && order == described_order(query@),
            Err(body) => order_fault(query@) is Some && body@ == error_json(
                order_fault(query@)->0,
            ),
        },
{
    let side = match query_param(query, "side") {
        Some(v) => if is_text(v.as_slice(), "buy") {
            Side::Buy
        } else if is_text(v.as_slice(), "sell") {
            Side::Sell
        } else {
            return Err(format_error("side must be buy or sell"));
        },
        None => {
            return Err(format_error("side must be buy or sell"));
        },
    };
    let instrument: u64 = match required(query, "instrument", u32::MAX as u64) {
        Ok(v) => v,
        Err(e) => {
            return Err(format_error(e.as_str()));
        },
    };
    let id: u64 = match required(query, "order_id", u64::MAX) {
        Ok(v) => v,
        Err(e) => {
            return Err(format_error(e.as_str()));
        },
    };
    let price: u64 = match required(query, "price", u64::MAX) {
        Ok(v) => v,
        Err(e) => {
            return Err(format_error(e.as_str()));
        },
    };
    let qty: u64 = match required(query, "qty", u64::MAX) {
        Ok(v) => v,
        Err(e) => {
            return Err(format_error(e.as_str()));
        },
    };
    let user: u64 = match required(query, "user", u64::MAX) {
        Ok(v) => v,
        Err(e) => {
            return Err(format_error(e.as_str()));
        },
    };
    Ok(
        Order::limit(OrderId(id), side, price, qty).on(InstrumentId(instrument as u32)).owned_by(
            user,
        ),
    )
}

/// What is wrong with the cancel that a query describes, if anything.
pub open spec fn cancel_fault(query: Seq<char>) -> Option<Seq<char>> {
    match required_value(query, "instrument"@, u32::MAX as nat) {
        Err(e) => Some(e),
        Ok(_) => match required_value(query, "order_id"@, u64::MAX as nat) {
            Err(e) => Some(e),
            Ok(_) => match required_value(query, "cmd_id"@, u64::MAX as nat) {
                Err(e) => Some(e),
                Ok(_) => None,
            },
        },
    }
}

/// Reads the cancel that a query describes: instrument, order and command; else
/// the body of the answer.
pub fn cancel_from_query(query: &[char]) -> (r: Result<(InstrumentId, OrderId, u64), String>)
    ensures
        match r {
            Ok((instrument, order_id, cmd_id)) => {
                &&& cancel_fault(query@) is None
                &&& required_value(query@, "instrument"@, u32::MAX as nat) == Ok::<u64, Seq<char>>(
                    instrument.0 as u64,
                )
                &&& required_value(query@, "order_id"@, u64::MAX as nat) == Ok::<u64, Seq<char>>(
                    order_id.0,
                )
                &&& required_value(query@, "cmd_id"@, u64::MAX as nat) == Ok::<u64, Seq<char>>(
                    cmd_id,
                )
            },
            Err(body) => cancel_fault(query@) is Some && body@ == error_json(
                cancel_fault(query@)->0,
            ),
        },
{
    let instrument: u64 = match required(query, "instrument", u32::MAX as u64) {
        Ok(v) => v,
        Err(e) => {
            return Err(format_error(e.as_str()));
        },
    };
    let order_id: u64 = match required(query, "order_id", u64::MAX) {
        Ok(v) => v,
        Err(e) => {
            return Err(format_error(e.as_str()));
        },
    };
    let cmd_id: u64 = match required(query, "cmd_id", u64::MAX) {
        Ok(v) => v,
        Err(e) => {
            return Err(format_error(e.as_str()));
        },
    };
    Ok((InstrumentId(instrument as u32), OrderId(order_id), cmd_id))
}

/// A page of the user interface.
#[derive(Clone, Copy, Debug, PartialEq, Eq, Structural)]
pub enum Page {
    Chart,
    Admin,
    Trade,
}

/// What a request asks for.
#[derive(Debug)]
pub enum MarketRoute {
    Page(Page),
    /// To be sent candles and depth over a websocket.
    Subscribe { key: String, symbol: InstrumentId, interval: String },
    Symbols,
    Overview,
    /// To have its query sent on to the order service, under this path.
    Forward { path: &'static str, query: String },
    Candles { symbol: InstrumentId, interval: String, limit: u64 },
    Trades { symbol: InstrumentId, limit: u64 },
    Depth { symbol: InstrumentId },
    /// Nothing: it gets this status, type and body.
    Reply { status: &'static str, content_type: &'static str, body: String },
}

/// What a request asks for.
pub enum MarketRouteView {
    Page(Page),
    Subscribe { key: Seq<char>, symbol: InstrumentId, interval: Seq<char> },
    Symbols,
    Overview,
    Forward { path: Seq<char>, query: Seq<char> },
    Candles { symbol: InstrumentId, interval: Seq<char>, limit: u64 },
    Trades { symbol: InstrumentId, limit: u64 },
    Depth { symbol: InstrumentId },
    Reply { status: Seq<char>, content_type: Seq<char>, body: Seq<char> },
}

impl View for MarketRoute {
    type V = MarketRouteView;

    open spec fn view(&self) -> MarketRouteView {
        match self {
            MarketRoute::Page(page) => MarketRouteView::Page(*page),
            MarketRoute::Subscribe { key, symbol, interval } => MarketRouteView::Subscribe {
                key: key@,
                symbol: *symbol,
                interval: interval@,
            },
            MarketRoute::Symbols => MarketRouteView::Symbols,
            MarketRoute::Overview => MarketRouteView::Overview,
            MarketRoute::Forward { path, query } => MarketRouteView::Forward {
                path: path@,
                query: query@,
            },
            MarketRoute::Candles { symbol, interval, limit } => MarketRouteView::Candles {
                symbol: *symbol,
                interval: interval@,
                limit: *limit,
            },
            MarketRoute::Trades { symbol, limit } => MarketRouteView::Trades {
                symbol: *symbol,
                limit: *limit,
            },
            MarketRoute::Depth { symbol } => MarketRouteView::Depth { symbol: *symbol },
            MarketRoute::Reply { status, content_type, body } => MarketRouteView::Reply {
                status: status@,
                content_type: content_type@,
                body: body@,
            },
        }
    }
}

/// The instrument that a query names; the first one if it names none.
pub open spec fn symbol_in(query: Seq<char>) -> InstrumentId {
    InstrumentId(value_or(query, "symbol"@, u32::MAX as nat, 1) as u32)
}

/// The interval that a query names.
pub open spec fn interval_in(query: Seq<char>, default: Seq<char>) -> Seq<char> {
    match query_value(query, "interval"@) {
        Some(name) => name,
        None => default,
    }
}

fn parse_symbol(query: &[char]) -> (r: InstrumentId)
    ensures
        r == symbol_in(query@),
{
    InstrumentId(number_or(query, "symbol", u32::MAX as u64, 1) as u32)
}

fn parse_interval(query: &[char], default: &str) -> (r: String)
    ensures
        r@ == interval_in(query@, default@),
{
    match query_param(query, "interval") {
        Some(name) => text_of(name.as_slice()),
        None => String::from_str(default),
    }
}

/// A write is sent on if it is allowed and in order, and refused otherwise.
pub open spec fn forwarded(
    authorization: Option<Seq<char>>,
    token: Option<Seq<char>>,
    fault: Option<Seq<char>>,
    path: Seq<char>,
    query: Seq<char>,
) -> MarketRouteView {
    match denial(authorization, token) {
        Some((status, body)) => MarketRouteView::Reply {
            status,
            content_type: "application/json"@,
            body,
        },
        None => match fault {
            Some(e) => MarketRouteView::Reply {
                status: "400 Bad Request"@,
                content_type: "application/json"@,
                body: error_json(e),
            },
            None => MarketRouteView::Forward { path, query },
        },
    }
}

/// What a request asks for.
pub open spec fn market_route(
    request: MarketRequestView,
    admin_token: Option<Seq<char>>,
    trading_token: Option<Seq<char>>,
) -> MarketRouteView {
    let path = target_path(request.target);
    let query = target_query(request.target);
    let post = request.method == "POST"@;
    if path == "/"@ || path == "/index.html"@ {
        MarketRouteView::Page(Page::Chart)
    } else if path == "/admin"@ || path == "/admin/"@ {
        MarketRouteView::Page(Page::Admin)
    } else if path == "/trade"@ || path == "/trade/"@ {
        MarketRouteView::Page(Page::Trade)
    } else if path == "/ws"@ {
        match request.ws_key {
            Some(key) => MarketRouteView::Subscribe {
                key,
                symbol: symbol_in(query),
                interval: interval_in(query, "1s"@),
            },
            None => MarketRouteView::Reply {
                status: "400 Bad Request"@,
                content_type: "text/plain"@,
                body: "expected websocket"@,
            },
        }
    } else if path == "/api/symbols"@ {
        MarketRouteView::Symbols
    } else if path == "/api/admin/overview"@ {
        match denial(request.authorization, admin_token) {
            Some((status, body)) => MarketRouteView::Reply {
                status,
                content_type: "application/json"@,
                body,
            },
            None => MarketRouteView::Overview,
        }
    } else if path == "/api/trade/order"@ && post {
        forwarded(request.authorization, trading_token, order_fault(query), "/orders"@, query)
    } else if path == "/api/trade/cancel"@ && post {
        forwarded(request.authorization, trading_token, cancel_fault(query), "/cancels"@, query)
    } else if path == "/api/candles"@ {
        MarketRouteView::Candles {
            symbol: symbol_in(query),
            interval: interval_in(query, "1m"@),
            limit: value_or(query, "limit"@, usize::MAX as nat, 120),
        }
    } else if path == "/api/trades"@ {
        MarketRouteView::Trades {
            symbol: symbol_in(query),
            limit: value_or(query, "limit"@, usize::MAX as nat, 100),
        }
    } else if path == "/api/depth"@ {
        MarketRouteView::Depth { symbol: symbol_in(query) }
    } else {
        MarketRouteView::Reply {
            status: "404 Not Found"@,
            content_type: "text/plain"@,
            body: "not found"@,
        }
    }
}

fn json_reply(status: &'static str, body: String) -> (r: MarketRoute)
    ensures
        r@ == (MarketRouteView::Reply {
            status: status@,
            content_type: "application/json"@,
            body: body@,
        }),
{
    MarketRoute::Reply { status, content_type: "application/json", body }
}

fn route_order(query: &[char], authorization: &Option<String>, token: Option<&str>) -> (r:
    MarketRoute)
    ensures
        r@ == forwarded(
            optional(*authorization),
            set_token(token),
            order_fault(query@),
            "/orders"@,
            query@,
        ),
{
    match admin_access(authorization, token) {
        Err((status, body)) => json_reply(status, body),
        Ok(()) => match new_order_from_query(query) {
            Ok(_) => MarketRoute::Forward { path: "/orders", query: text_of(query) },
            Err(body) => json_reply("400 Bad Request", body),
        },
    }
}

fn route_cancel(query: &[char], authorization: &Option<String>, token: Option<&str>) -> (r:
    MarketRoute)
    ensures
        r@ == forwarded(
            optional(*authorization),
            set_token(token),
            cancel_fault(query@),
            "/cancels"@,
            query@,
        ),
{
    match admin_access(authorization, token) {
        Err((status, body)) => json_reply(status, body),
        Ok(()) => match cancel_from_query(query) {
            Ok(_) => MarketRoute::Forward { path: "/cancels", query: text_of(query) },
            Err(body) => json_reply("400 Bad Request", body),
        },
    }
}

/// What a request asks for, and whether it may.
pub fn route_request(
    request: &MarketRequest,
    admin_token: Option<&str>,
    trading_token: Option<&str>,
) -> (r: MarketRoute)
    ensures
        r@ == market_route(request@, set_token(admin_token), set_token(trading_token)),
{
    let target = chars_of(request.target.as_str());
    let (path, query) = split_target(target.as_slice());
    let method = chars_of(request.method.as_str());
    let post: bool = is_text(method.as_slice(), "POST");
    if is_text(path, "/") || is_text(path, "/index.html") {
        return MarketRoute::Page(Page::Chart);
    }
    if is_text(path, "/admin") || is_text(path, "/admin/") {
        return MarketRoute::Page(Page::Admin);
    }
    if is_text(path, "/trade") || is_text(path, "/trade/") {
        return MarketRoute::Page(Page::Trade);
    }
    if is_text(path, "/ws") {
        return match &request.ws_key {
            Some(key) => MarketRoute::Subscribe {
                key: key.clone(),
                symbol: parse_symbol(query),
                interval: parse_interval(query, "1s"),
            },
            None => MarketRoute::Reply {
                status: "400 Bad Request",
                content_type: "text/plain",
                body: String::from_str("expected websocket"),
            },
        };
    }
    if is_text(path, "/api/symbols") {
        return MarketRoute::Symbols;
    }
    if is_text(path, "/api/admin/overview") {
        return match admin_access(&request.authorization, admin_token) {
            Err((status, body)) => json_reply(status, body),
            Ok(()) => MarketRoute::Overview,
        };
    }
    if is_text(path, "/api/trade/order") && post {
        return route_order(query, &request.authorization, trading_token);
    }
    if is_text(path, "/api/trade/cancel") && post {
        return route_cancel(query, &request.authorization, trading_token);
    }
    if is_text(path, "/api/candles") {
        return MarketRoute::Candles {
            symbol: parse_symbol(query),
            interval: parse_interval(query, "1m"),
            limit: number_or(query, "limit", usize::MAX as u64, 120),
        };
    }
    if is_text(path, "/api/trades") {
        return MarketRoute::Trades {
            symbol: parse_symbol(query),
            limit: number_or(query, "limit", usize::MAX as u64, 100),
        };
    }
    if is_text(path, "/api/depth") {
        return MarketRoute::Depth { symbol: parse_symbol(query) };
    }
    MarketRoute::Reply {
        status: "404 Not Found",
        content_type: "text/plain",
        body: String::from_str("not found"),
    }
}

/// Nothing is sent on to the order service, and no overview is given, without a
/// token that is set and presented.
pub proof fn law_tokens_are_needed(
    request: MarketRequestView,
    admin_token: Option<Seq<char>>,
    trading_token: Option<Seq<char>>,
)
    ensures
        market_route(request, admin_token, trading_token) is Forward ==> trading_token is Some
            && request.authorization == Some("Bearer "@ + trading_token->0),
        market_route(request, admin_token, trading_token) is Overview ==> admin_token is Some
            && request.authorization == Some("Bearer "@ + admin_token->0),
{
}

/// The request that sends a query on to the order service.
pub open spec fn forward_text(path: Seq<char>, query: Seq<char>, token: Seq<char>) -> Seq<char> {
    "POST "@ + path + "?"@ + query
        + " HTTP/1.1\r\nHost: order-api\r\nAuthorization: Bearer "@ + token
        + "\r\nContent-Length: 0\r\nConnection: keep-alive\r\n\r\n"@
}

/// The request that sends a query on to the order service.
pub fn forward_request(path: &str, query: &str, token: &str) -> (r: String)
    ensures
        r@ == forward_text(path@, query@, token@),
{
    let mut out = String::new();
    out.append("POST ");
    assert(out@ =~= "POST "@);
    out.append(path);
    out.append("?");
    out.append(query);
    out.append(" HTTP/1.1\r\nHost: order-api\r\nAuthorization: Bearer ");
    out.append(token);
    out.append("\r\nContent-Length: 0\r\nConnection: keep-alive\r\n\r\n");
    out
}

/// What a request that was sent on gets back: status and body.
pub open spec fn forwarding_reply(failure: Option<Seq<char>>) -> (Seq<char>, Seq<char>) {
    match failure {
        None => ("202 Accepted"@, "{\"accepted\":true}"@),
        Some(text) => ("503 Service Unavailable"@, error_json(text)),
    }
}

/// What a request that was sent on gets back: it was taken, or `failure` says why
/// not.
pub fn forward_reply(failure: Option<&str>) -> (r: (&'static str, String))
    ensures
        r.0@ == forwarding_reply(setting(failure)).0,
        r.1@ == forwarding_reply(setting(failure)).1,
{
    match failure {
        None => ("202 Accepted", String::from_str("{\"accepted\":true}")),
        Some(text) => ("503 Service Unavailable", format_error(text)),
    }
}

/// Whether the status line of the order service says that a write was taken.
pub fn is_accepted(status: &str) -> (r: bool)
    ensures
        r == has_prefix(status@, "HTTP/1.1 202"@),
{
    let chars = chars_of(status);
    strip_prefix(chars.as_slice(), "HTTP/1.1 202").is_some()
}

/// The length of the body that a header line of a response gives: nothing if the
/// header is another one, and an error if it gives no number.
pub fn body_length(line: &str) -> (r: Option<Result<usize, ()>>)
    ensures
        r == match header_pair(line@) {
            Some((name, value)) => if name == "content-length"@ {
                match number(value) {
                    Some(n) => if n <= usize::MAX {
                        Some(Ok::<usize, ()>(n as usize))
                    } else {
                        Some(Err::<usize, ()>(()))
                    },
                    None => Some(Err::<usize, ()>(())),
                }
            } else {
                None
            },
            None => None,
        },
{
    match read_header(line) {
        Some((name, value)) => if is_text(name.as_slice(), "content-length") {
            match parse_number(value.as_slice(), usize::MAX as u64) {
                Some(n) => Some(Ok(n as usize)),
                None => Some(Err(())),
            }
        } else {
            None
        },
        None => None,
    }
}

/// An order is sent on only if it can be read as one: what is wrong with it is nothing exactly
/// if the order service would read it, and then it would read the same order.
pub proof fn law_forwarded_orders_can_be_read(query: Seq<char>)
    ensures
        order_fault(query) is None <==> crate::ingress::order_in(query) is Ok,
        order_fault(query) is None ==> crate::ingress::order_in(query) == Ok::<Order, Seq<char>>(
            described_order(query),
        ),
{
    crate::ingress::law_queried_orders(query);
    reveal_strlit("buy");
    reveal_strlit("sell");
    assert("buy"@.len() != "sell"@.len());
}

/// With the token and nothing wrong, a posted order or cancellation is sent on, to the orders
/// or the cancels, with the query it came with.
pub proof fn law_trades_are_forwarded(
    request: MarketRequestView,
    admin_token: Option<Seq<char>>,
    token: Seq<char>,
)
    requires
        request.method == "POST"@,
        request.authorization == Some("Bearer "@ + token),
    ensures
        ({
            let path = target_path(request.target);
            let query = target_query(request.target);
            let r = market_route(request, admin_token, Some(token));
            &&& path == "/api/trade/order"@ && order_fault(query) is None ==> r
                == (MarketRouteView::Forward { path: "/orders"@, query })
            &&& path == "/api/trade/cancel"@ && cancel_fault(query) is None ==> r
                == (MarketRouteView::Forward { path: "/cancels"@, query })
            &&& r is Forward ==> path == "/api/trade/order"@ && order_fault(query) is None || path
                == "/api/trade/cancel"@ && cancel_fault(query) is None
        }),
{
    reveal_strlit("/");
    reveal_strlit("/index.html");
    reveal_strlit("/admin");
    reveal_strlit("/admin/");
    reveal_strlit("/trade");
    reveal_strlit("/trade/");
    reveal_strlit("/ws");
    reveal_strlit("/api/symbols");
    reveal_strlit("/api/admin/overview");
    reveal_strlit("/api/trade/order");
    reveal_strlit("/api/trade/cancel");
    assert("/api/trade/order"@.len() == 16);
    assert("/api/trade/cancel"@.len() == 17);
    assert("/api/admin/overview"@.len() == 19);
}

} // verus!
