//! The event loop's table of live connections, keyed by the tokens it issues.
use crate::client::{fresh_client, ClientView, Token, WebSocketClient};
use vstd::prelude::*;

verus! {

/// The token of the listening socket; connections never get it.
pub const SERVER_TOKEN: usize = 0;

pub struct ConnectionsView {
    pub clients: Seq<ClientView>,
    /// The token that the next accepted connection gets.
    pub next: nat,
}

/// Live connections. Tokens are issued in increasing order, starting after
/// the listener's, and are never issued twice.
pub struct Connections {
    clients: Vec<WebSocketClient>,
    next: usize,
}

impl View for Connections {
    type V = ConnectionsView;

    closed spec fn view(&self) -> ConnectionsView {
        ConnectionsView {
            clients: self.clients@.map_values(|c: WebSocketClient| c@),
            next: self.next as nat,
        }
    }
}

/// Whether some connection in `cs` has token `t`.
pub open spec fn holds(cs: Seq<ClientView>, t: Token) -> bool {
    exists|i: int| 0 <= i < cs.len() && (#[trigger] cs[i]).token == t
}

impl Connections {
    pub closed spec fn wf(&self) -> bool {
        &&& forall|i: int| 0 <= i < self.clients@.len() ==> (#[trigger] self.clients@[i]).wf()
        &&& self@.next >= 1
        &&& forall|i: int|
            0 <= i < self@.clients.len() ==> 1 <= (#[trigger] self@.clients[i]).token.0 < self@.next
        &&& forall|i: int, j: int|
            0 <= i < j < self@.clients.len() ==> (#[trigger] self@.clients[i]).token
                != (#[trigger] self@.clients[j]).token
    }

    pub fn new() -> (r: Connections)
        ensures
            r.wf(),
            r@.clients.len() == 0,
            r@.next == 1,
    {
        let r = Connections { clients: Vec::new(), next: 1 };
        assert(r@.clients =~= Seq::<ClientView>::empty());
        r
    }

    /// Registers a freshly accepted socket; `None` once every token has been
    /// issued.
    pub fn accept(&mut self) -> (r: Option<Token>)
        requires
            old(self).wf(),
        ensures
            final(self).wf(),
            old(self)@.next < usize::MAX ==> (r matches Some(t) && t.0 == old(self)@.next
                && final(self)@.next == old(self)@.next + 1 && final(self)@.clients.len()
                == old(self)@.clients.len() + 1 && final(self)@.clients.drop_last()
                == old(self)@.clients && final(self)@.clients.last() == fresh_client(t)),
            old(self)@.next == usize::MAX ==> r is None && final(self)@ == old(self)@,
    {
        if self.next == usize::MAX {
            return None;
        }
        let t = Token(self.next);
        let c = WebSocketClient::new(t);
        let ghost cv = c@;
        self.clients.push(c);
        self.next = self.next + 1;
        assert(self@.clients.drop_last() =~= old(self)@.clients);
        assert(self@.clients.last() == cv);
        assert forall|a: int| 0 <= a < old(self)@.clients.len() implies self@.clients[a] == old(
            self,
        )@.clients[a] && self.clients@[a] == old(self).clients@[a] by {}
        Some(t)
    }

    /// Takes the connection with token `t` out of the table.
    pub fn take(&mut self, t: Token) -> (r: Option<WebSocketClient>)
        requires
            old(self).wf(),
        ensures
            final(self).wf(),
            final(self)@.next == old(self)@.next,
            r is None <==> !holds(old(self)@.clients, t),
            r is None ==> final(self)@ == old(self)@,
            r matches Some(c) ==> c.wf() && exists|i: int|
                0 <= i < old(self)@.clients.len() && old(self)@.clients[i] == c@ && c@.token == t
                    && final(self)@.clients == old(self)@.clients.remove(i),
    {
        let mut i: usize = 0;
        while i < self.clients.len()
            invariant
                self.wf(),
                self == old(self),
                i <= self@.clients.len(),
                self@.clients.len() == self.clients@.len(),
                forall|j: int| 0 <= j < i ==> (#[trigger] self@.clients[j]).token != t,
            decreases self@.clients.len() - i,
        {
            if self.clients[i].token() == t {
                let ghost before = self@.clients;
                assert(before[i as int].token == t);
                let c = self.clients.remove(i);
                assert(self@.clients =~= before.remove(i as int));
                assert forall|a: int, b: int|
                    0 <= a < b < self@.clients.len() implies (#[trigger] self@.clients[a]).token
                    != (#[trigger] self@.clients[b]).token by {
                    let a0 = if a < i { a } else { a + 1 };
                    let b0 = if b < i { b } else { b + 1 };
                    assert(self@.clients[a] == before[a0]);
                    assert(self@.clients[b] == before[b0]);
                }
                assert forall|a: int| 0 <= a < self.clients@.len() implies (#[trigger] self.clients@[a]).wf() by {
                    let a0 = if a < i { a } else { a + 1 };
                    assert(self.clients@[a] == old(self).clients@[a0]);
                }
                assert forall|a: int| 0 <= a < self@.clients.len() implies 1 <= (#[trigger] self@.clients[a]).token.0 < self@.next by {
                    let a0 = if a < i { a } else { a + 1 };
                    assert(self@.clients[a] == before[a0]);
                }
                return Some(c);
            }
            i = i + 1;
        }
        None
    }

    /// Puts a connection (back) into the table. Refused, and dropped, if its
    /// token was never issued or is already in the table.
    pub fn put_back(&mut self, c: WebSocketClient) -> (r: bool)
        requires
            old(self).wf(),
            c.wf(),
        ensures
            final(self).wf(),
            final(self)@.next == old(self)@.next,
            r == (1 <= c@.token.0 < old(self)@.next && !holds(old(self)@.clients, c@.token)),
            r ==> final(self)@.clients == old(self)@.clients.push(c@),
            !r ==> final(self)@ == old(self)@,
    {
        let t = c.token();
        if t.0 < 1 || t.0 >= self.next {
            return false;
        }
        let mut i: usize = 0;
        while i < self.clients.len()
            invariant
                self.wf(),
                self == old(self),
                t == c@.token,
                i <= self@.clients.len(),
                self@.clients.len() == self.clients@.len(),
                forall|j: int| 0 <= j < i ==> (#[trigger] self@.clients[j]).token != t,
            decreases self@.clients.len() - i,
        {
            if self.clients[i].token() == t {
                assert(self@.clients[i as int].token == t);
                return false;
            }
            i = i + 1;
        }
        let ghost cv = c@;
        self.clients.push(c);
        assert(self@.clients =~= old(self)@.clients.push(cv));
        true
    }

    /// The tokens of the live connections.
    pub fn tokens(&self) -> (r: Vec<Token>)
        requires
            self.wf(),
        ensures
            r@ == self@.clients.map_values(|c: ClientView| c.token),
    {
        let mut r: Vec<Token> = Vec::new();
        let mut i: usize = 0;
        while i < self.clients.len()
            invariant
                i <= self@.clients.len(),
                self@.clients.len() == self.clients@.len(),
                r@ == self@.clients.subrange(0, i as int).map_values(|c: ClientView| c.token),
            decreases self@.clients.len() - i,
        {
            r.push(self.clients[i].token());
            i = i + 1;
            assert(r@ =~= self@.clients.subrange(0, i as int).map_values(|c: ClientView| c.token));
        }
        assert(self@.clients.subrange(0, i as int) =~= self@.clients);
        r
    }
}

} // verus!
