use vstd::prelude::*;

verus! {

/// The bearer token taken from a request's `Authorization` header.
pub struct Authorization {
    pub token: String,
}

/// The reply of a route: a status code and the fields of its JSON body.
pub struct RouteReply {
    pub status: u16,
    pub message: String,
    pub token: String,
}

/// A mounted route: its HTTP method and path pattern.
pub struct RouteSpec {
    pub method: String,
    pub path: String,
}

/// The server's table: its routes and the status codes it has catchers for.
pub struct ServerTable {
    pub routes: Vec<RouteSpec>,
    pub catchers: Vec<u16>,
}

pub open spec fn bearer_prefix() -> Seq<char> {
    seq!['B', 'e', 'a', 'r', 'e', 'r', ' ']
}

/// Reads an `Authorization` header value: `Bearer <token>` gives the token;
/// anything else, or no header, is refused.
pub fn authorize(header: Option<&str>) -> (r: Option<Authorization>)
    ensures
        r is Some <==> (header is Some && header->0@.len() >= 7 && header->0@.take(7)
            == bearer_prefix()),
        r is Some ==> r->0.token@ == header->0@.skip(7),
{
    let h = match header {
        None => {
            return None;
        },
        Some(h) => h,
    };
    let prefix = "Bearer ";
    proof {
        reveal_strlit("Bearer ");
    }
    let n = h.unicode_len();
    if n < 7 {
        return None;
    }
    let mut i: usize = 0;
    while i < 7
        invariant
            i <= 7 <= n == h@.len(),
            prefix@ == bearer_prefix(),
            header == Some(h),
            forall|j: int| 0 <= j < i ==> h@[j] == bearer_prefix()[j],
        decreases 7 - i,
    {
        if h.get_char(i) != prefix.get_char(i) {
            assert(h@.take(7)[i as int] != bearer_prefix()[i as int]);
            return None;
        }
        i = i + 1;
    }
    assert(h@.take(7) =~= bearer_prefix());
    let token = h.substring_char(7, n);
    assert(token@ =~= h@.skip(7));
    Some(Authorization { token: String::from_str(token) })
}

/// The protected route: access granted, with the caller's token.
pub fn protected_route(auth: Authorization) -> (r: RouteReply)
    ensures
        r.status == 200,
        r.message@ == seq!['A', 'c', 'c', 'e', 's', 's', ' ', 'g', 'r', 'a', 'n', 't', 'e', 'd'],
        r.token@ == auth.token@,
{
    let message = String::from_str("Access granted");
    proof {
        reveal_strlit("Access granted");
    }
    assert(message@ =~= seq!['A', 'c', 'c', 'e', 's', 's', ' ', 'g', 'r', 'a', 'n', 't', 'e', 'd']);
    RouteReply { status: 200, message, token: auth.token }
}

/// The body of the reply to an unknown path.
pub fn not_found() -> (r: &'static str)
    ensures
        r@ == seq![
            '4', '0', '4', ' ', '-', ' ', 'N', 'o', 't', ' ', 'F', 'o', 'u', 'n', 'd',
        ],
{
    let r = "404 - Not Found";
    proof {
        reveal_strlit("404 - Not Found");
    }
    assert(r@ =~= seq!['4', '0', '4', ' ', '-', ' ', 'N', 'o', 't', ' ', 'F', 'o', 'u', 'n', 'd']);
    r
}

/// The server's table: `GET /delay/<seconds>` and `GET /protected`, and a
/// catcher for 404.
pub fn rocket() -> (r: ServerTable)
    ensures
        r.routes@.len() == 2,
        r.routes@[0].method@ == seq!['G', 'E', 'T'],
        r.routes@[0].path@ == seq![
            '/', 'd', 'e', 'l', 'a', 'y', '/', '<', 's', 'e', 'c', 'o', 'n', 'd', 's', '>',
        ],
        r.routes@[1].method@ == seq!['G', 'E', 'T'],
        r.routes@[1].path@ == seq!['/', 'p', 'r', 'o', 't', 'e', 'c', 't', 'e', 'd'],
        r.catchers@ == seq![404u16],
{
    proof {
        reveal_strlit("GET");
        reveal_strlit("/delay/<seconds>");
        reveal_strlit("/protected");
    }
    let mut routes: Vec<RouteSpec> = Vec::new();
    let delay = RouteSpec {
        method: String::from_str("GET"),
        path: String::from_str("/delay/<seconds>"),
    };
    assert(delay.method@ =~= seq!['G', 'E', 'T']);
    assert(delay.path@ =~= seq![
        '/', 'd', 'e', 'l', 'a', 'y', '/', '<', 's', 'e', 'c', 'o', 'n', 'd', 's', '>',
    ]);
    routes.push(delay);
    let protected = RouteSpec {
        method: String::from_str("GET"),
        path: String::from_str("/protected"),
    };
    assert(protected.method@ =~= seq!['G', 'E', 'T']);
    assert(protected.path@ =~= seq!['/', 'p', 'r', 'o', 't', 'e', 'c', 't', 'e', 'd']);
    routes.push(protected);
    let mut catchers: Vec<u16> = Vec::new();
    catchers.push(404);
    assert(catchers@ =~= seq![404u16]);
    ServerTable { routes, catchers }
}

} // verus!
