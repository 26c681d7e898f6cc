//! The websocket stream service: client messages, the streams a client can
//! subscribe to, and the bookkeeping of who is subscribed to what.

use vstd::prelude::*;
use vstd::string::*;

use crate::text::{split_char, split_spec, str_eq};

verus! {

/// A message a websocket client sends: a method, its parameters and a
/// request id.
#[derive(Clone, Debug)]
pub struct WsMessage {
    pub method: String,
    pub params: Vec<String>,
    pub id: u32,
}

/// The kinds of stream a client can subscribe to.
#[allow(non_camel_case_types)]
#[derive(Clone, Copy, Debug, PartialEq, Eq, Structural)]
pub enum SubscriptionType {
    depth,
    trade,
    ticker,
}

/// The markets a client can subscribe to.
#[allow(non_camel_case_types)]
#[derive(Clone, Copy, Debug, PartialEq, Eq, Structural)]
pub enum SupportedAssetPairs {
    BTC_USDT,
    ETH_USDT,
    SOL_USDT,
    SOL_USDC,
}

/// The name under which a kind of stream is written.
pub open spec fn subscription_name(t: SubscriptionType) -> Seq<char> {
    match t {
        SubscriptionType::depth => "depth"@,
        SubscriptionType::trade => "trade"@,
        SubscriptionType::ticker => "ticker"@,
    }
}

/// The kind of stream a name denotes.
pub open spec fn subscription_named(s: Seq<char>) -> Option<SubscriptionType> {
    if s == "depth"@ {
        Some(SubscriptionType::depth)
    } else if s == "trade"@ {
        Some(SubscriptionType::trade)
    } else if s == "ticker"@ {
        Some(SubscriptionType::ticker)
    } else {
        None
    }
}

/// The name under which a market is written.
pub open spec fn pair_name(p: SupportedAssetPairs) -> Seq<char> {
    match p {
        SupportedAssetPairs::BTC_USDT => "BTC_USDT"@,
        SupportedAssetPairs::ETH_USDT => "ETH_USDT"@,
        SupportedAssetPairs::SOL_USDT => "SOL_USDT"@,
        SupportedAssetPairs::SOL_USDC => "SOL_USDC"@,
    }
}

/// The market a name denotes.
pub open spec fn pair_named(s: Seq<char>) -> Option<SupportedAssetPairs> {
    if s == "BTC_USDT"@ {
        Some(SupportedAssetPairs::BTC_USDT)
    } else if s == "ETH_USDT"@ {
        Some(SupportedAssetPairs::ETH_USDT)
    } else if s == "SOL_USDT"@ {
        Some(SupportedAssetPairs::SOL_USDT)
    } else if s == "SOL_USDC"@ {
        Some(SupportedAssetPairs::SOL_USDC)
    } else {
        None
    }
}

pub open spec fn strings_view(v: Seq<String>) -> Seq<Seq<char>> {
    v.map_values(|s: String| s@)
}

/// The stream the first parameter of a message names, written
/// `<kind>.<market>`, such as `depth.SOL_USDC`.
pub open spec fn subscription_of(params: Seq<Seq<char>>) -> Option<
    (SubscriptionType, SupportedAssetPairs),
> {
    if params.len() == 0 {
        None
    } else {
        let parts = split_spec(params[0], '.');
        if parts.len() != 2 {
            None
        } else {
            match (subscription_named(parts[0]), pair_named(parts[1])) {
                (Some(t), Some(p)) => Some((t, p)),
                _ => None,
            }
        }
    }
}

/// The id of a stream: its kind and its market joined by a dot.
pub open spec fn subscription_id_of(t: SubscriptionType, p: SupportedAssetPairs) -> Seq<char> {
    subscription_name(t) + "."@ + pair_name(p)
}

impl SubscriptionType {
    pub fn from_str(s: &str) -> (r: Option<SubscriptionType>)
        ensures
            r == subscription_named(s@),
    {
        if str_eq(s, "depth") {
            Some(SubscriptionType::depth)
        } else if str_eq(s, "trade") {
            Some(SubscriptionType::trade)
        } else if str_eq(s, "ticker") {
            Some(SubscriptionType::ticker)
        } else {
            None
        }
    }

    /// The name of the kind of stream.
    pub fn name(&self) -> (r: &'static str)
        ensures
            r@ == subscription_name(*self),
    {
        match self {
            SubscriptionType::depth => "depth",
            SubscriptionType::trade => "trade",
            SubscriptionType::ticker => "ticker",
        }
    }
}

impl SupportedAssetPairs {
    pub fn from_str(asset_pair_str: &str) -> (r: Result<SupportedAssetPairs, &'static str>)
        ensures
            match pair_named(asset_pair_str@) {
                Some(p) => r == Ok::<SupportedAssetPairs, &'static str>(p),
                None => r matches Err(e) && e@ == "Unsupported asset pair"@,
            },
    {
        if str_eq(asset_pair_str, "BTC_USDT") {
            Ok(SupportedAssetPairs::BTC_USDT)
        } else if str_eq(asset_pair_str, "ETH_USDT") {
            Ok(SupportedAssetPairs::ETH_USDT)
        } else if str_eq(asset_pair_str, "SOL_USDT") {
            Ok(SupportedAssetPairs::SOL_USDT)
        } else if str_eq(asset_pair_str, "SOL_USDC") {
            Ok(SupportedAssetPairs::SOL_USDC)
        } else {
            Err("Unsupported asset pair")
        }
    }

    /// The name of the market.
    pub fn name(&self) -> (r: &'static str)
        ensures
            r@ == pair_name(*self),
    {
        match self {
            SupportedAssetPairs::BTC_USDT => "BTC_USDT",
            SupportedAssetPairs::ETH_USDT => "ETH_USDT",
            SupportedAssetPairs::SOL_USDT => "SOL_USDT",
            SupportedAssetPairs::SOL_USDC => "SOL_USDC",
        }
    }
}

impl WsMessage {
    /// The stream the message's first parameter names, if it names one.
    pub fn parse_subscription(&self) -> (r: Option<(SubscriptionType, SupportedAssetPairs)>)
        ensures
            r == subscription_of(strings_view(self.params@)),
    {
        if self.params.len() == 0 {
            return None;
        }
        let parts = split_char(self.params[0].as_str(), '.');
        if parts.len() != 2 {
            return None;
        }
        proof {
            assert(strings_view(self.params@)[0] == self.params@[0]@);
        }
        let subscription_type = match SubscriptionType::from_str(parts[0].as_str()) {
            Some(t) => t,
            None => return None,
        };
        let asset_pair = match SupportedAssetPairs::from_str(parts[1].as_str()) {
            Ok(p) => p,
            Err(_) => return None,
        };
        Some((subscription_type, asset_pair))
    }
}

/// The id of the stream of a kind of data for a market.
pub fn subscription_id(t: SubscriptionType, p: SupportedAssetPairs) -> (r: String)
    ensures
        r@ == subscription_id_of(t, p),
{
    let mut r = String::from_str(t.name());
    r.append(".");
    r.append(p.name());
    r
}

} // verus!

verus! {

/// A connected websocket client.
#[derive(Clone, Debug)]
pub struct Client {
    pub id: String,
    pub authenticated: bool,
}

/// A key with the list of names filed under it: a client with the streams
/// it subscribed to, or a stream with the clients subscribed to it.
#[derive(Clone, Debug)]
pub struct Topic {
    pub key: String,
    pub members: Vec<String>,
}

pub struct ClientView {
    pub id: Seq<char>,
    pub authenticated: bool,
}

pub struct TopicView {
    pub key: Seq<char>,
    pub members: Seq<Seq<char>>,
}

impl View for Client {
    type V = ClientView;

    open spec fn view(&self) -> ClientView {
        ClientView { id: self.id@, authenticated: self.authenticated }
    }
}

impl View for Topic {
    type V = TopicView;

    open spec fn view(&self) -> TopicView {
        TopicView { key: self.key@, members: strings_view(self.members@) }
    }
}

pub open spec fn clients_view(v: Seq<Client>) -> Seq<ClientView> {
    v.map_values(|c: Client| c@)
}

pub open spec fn topics_view(v: Seq<Topic>) -> Seq<TopicView> {
    v.map_values(|t: Topic| t@)
}

pub open spec fn ids_unique(c: Seq<ClientView>) -> bool {
    forall|i: int, j: int|
        0 <= i < c.len() && 0 <= j < c.len() && i != j ==> #[trigger] c[i].id != #[trigger] c[j].id
}

pub open spec fn keys_unique(t: Seq<TopicView>) -> bool {
    forall|i: int, j: int|
        0 <= i < t.len() && 0 <= j < t.len() && i != j ==> #[trigger] t[i].key != #[trigger] t[j].key
}

pub open spec fn has_client(c: Seq<ClientView>, id: Seq<char>) -> bool {
    exists|i: int| 0 <= i < c.len() && #[trigger] c[i].id == id
}

pub open spec fn client_at(c: Seq<ClientView>, id: Seq<char>) -> int {
    choose|i: int| 0 <= i < c.len() && #[trigger] c[i].id == id
}

/// The client is connected and has authenticated.
pub open spec fn authenticated_in(c: Seq<ClientView>, id: Seq<char>) -> bool {
    has_client(c, id) && c[client_at(c, id)].authenticated
}

pub open spec fn has_key(t: Seq<TopicView>, k: Seq<char>) -> bool {
    exists|i: int| 0 <= i < t.len() && #[trigger] t[i].key == k
}

pub open spec fn key_at(t: Seq<TopicView>, k: Seq<char>) -> int {
    choose|i: int| 0 <= i < t.len() && #[trigger] t[i].key == k
}

/// The names filed under `k`; none when there is no such key.
pub open spec fn members_of(t: Seq<TopicView>, k: Seq<char>) -> Seq<Seq<char>> {
    if has_key(t, k) {
        t[key_at(t, k)].members
    } else {
        Seq::empty()
    }
}

/// `s` without any occurrence of `x`, in order.
pub open spec fn without(s: Seq<Seq<char>>, x: Seq<char>) -> Seq<Seq<char>>
    decreases s.len(),
{
    if s.len() == 0 {
        Seq::empty()
    } else if s.last() == x {
        without(s.drop_last(), x)
    } else {
        without(s.drop_last(), x).push(s.last())
    }
}

/// Files `m` under `k`, at the end of its list; a new key goes last.
pub open spec fn with_member(t: Seq<TopicView>, k: Seq<char>, m: Seq<char>) -> Seq<TopicView> {
    if has_key(t, k) {
        t.update(key_at(t, k), TopicView { key: k, members: t[key_at(t, k)].members.push(m) })
    } else {
        t.push(TopicView { key: k, members: seq![m] })
    }
}

/// Takes every `m` out of the list under `k`, keeping the key.
pub open spec fn drop_member(t: Seq<TopicView>, k: Seq<char>, m: Seq<char>) -> Seq<TopicView> {
    if has_key(t, k) {
        t.update(key_at(t, k), TopicView { key: k, members: without(t[key_at(t, k)].members, m) })
    } else {
        t
    }
}

/// Takes the key `k` and its list out.
pub open spec fn drop_key(t: Seq<TopicView>, k: Seq<char>) -> Seq<TopicView> {
    if has_key(t, k) {
        t.remove(key_at(t, k))
    } else {
        t
    }
}

/// Takes every `m` out of every list.
pub open spec fn drop_everywhere(t: Seq<TopicView>, m: Seq<char>) -> Seq<TopicView> {
    Seq::new(t.len(), |i: int| TopicView { key: t[i].key, members: without(t[i].members, m) })
}

pub proof fn lemma_key_at(t: Seq<TopicView>, i: int)
    requires
        keys_unique(t),
        0 <= i < t.len(),
    ensures
        has_key(t, t[i].key),
        key_at(t, t[i].key) == i,
{
    let j = key_at(t, t[i].key);
    assert(t[j].key == t[i].key);
}

pub proof fn lemma_client_at(c: Seq<ClientView>, i: int)
    requires
        ids_unique(c),
        0 <= i < c.len(),
    ensures
        has_client(c, c[i].id),
        client_at(c, c[i].id) == i,
{
    let j = client_at(c, c[i].id);
    assert(c[j].id == c[i].id);
}

/// Position of `k` among the topics.
fn find_topic(t: &Vec<Topic>, k: &str) -> (r: Option<usize>)
    requires
        keys_unique(topics_view(t@)),
    ensures
        r is None <==> !has_key(topics_view(t@), k@),
        r matches Some(i) ==> i < t@.len() && i == key_at(topics_view(t@), k@),
{
    let n = t.len();
    let mut i: usize = 0;
    while i < n
        invariant
            n == t@.len(),
            keys_unique(topics_view(t@)),
            i <= n,
            forall|j: int| 0 <= j < i ==> #[trigger] topics_view(t@)[j].key != k@,
        decreases n - i,
    {
        if str_eq(t[i].key.as_str(), k) {
            proof {
                assert(topics_view(t@)[i as int].key == k@);
                lemma_key_at(topics_view(t@), i as int);
            }
            return Some(i);
        }
        proof {
            assert(topics_view(t@)[i as int] == t@[i as int]@);
        }
        i = i + 1;
    }
    None
}

/// Position of the client `id`.
fn find_client(c: &Vec<Client>, id: &str) -> (r: Option<usize>)
    requires
        ids_unique(clients_view(c@)),
    ensures
        r is None <==> !has_client(clients_view(c@), id@),
        r matches Some(i) ==> i < c@.len() && i == client_at(clients_view(c@), id@),
{
    let n = c.len();
    let mut i: usize = 0;
    while i < n
        invariant
            n == c@.len(),
            ids_unique(clients_view(c@)),
            i <= n,
            forall|j: int| 0 <= j < i ==> #[trigger] clients_view(c@)[j].id != id@,
        decreases n - i,
    {
        if str_eq(c[i].id.as_str(), id) {
            proof {
                assert(clients_view(c@)[i as int].id == id@);
                lemma_client_at(clients_view(c@), i as int);
            }
            return Some(i);
        }
        proof {
            assert(clients_view(c@)[i as int] == c@[i as int]@);
        }
        i = i + 1;
    }
    None
}

/// The names of `v` other than `x`, in order.
fn without_name(v: &Vec<String>, x: &str) -> (r: Vec<String>)
    ensures
        strings_view(r@) == without(strings_view(v@), x@),
{
    let ghost sv = strings_view(v@);
    let mut r: Vec<String> = Vec::new();
    let n = v.len();
    let mut j: usize = 0;
    proof {
        assert(sv.take(0) =~= Seq::<Seq<char>>::empty());
        assert(strings_view(r@) =~= Seq::<Seq<char>>::empty());
    }
    while j < n
        invariant
            n == v@.len(),
            sv == strings_view(v@),
            j <= n,
            strings_view(r@) == without(sv.take(j as int), x@),
        decreases n - j,
    {
        let ghost before = strings_view(r@);
        proof {
            let t = sv.take(j + 1);
            assert(t.drop_last() =~= sv.take(j as int));
            assert(t.last() == v@[j as int]@);
        }
        if !str_eq(v[j].as_str(), x) {
            r.push(v[j].clone());
            proof {
                assert(strings_view(r@) =~= before.push(v@[j as int]@));
            }
        }
        j = j + 1;
    }
    proof {
        assert(sv.take(n as int) =~= sv);
    }
    r
}

} // verus!

verus! {

/// Who is connected, who subscribed to what, and the key clients must
/// present.
pub struct SubscriptionRegistry {
    pub users: Vec<Client>,
    /// For each client, the streams it subscribed to, in order.
    pub subscriptions: Vec<Topic>,
    /// For each stream, the clients subscribed to it, in order.
    pub reverse_subscriptions: Vec<Topic>,
    api_key: String,
}

pub struct RegistryView {
    pub clients: Seq<ClientView>,
    pub subscriptions: Seq<TopicView>,
    pub reverse: Seq<TopicView>,
    pub api_key: Seq<char>,
}

impl View for SubscriptionRegistry {
    type V = RegistryView;

    closed spec fn view(&self) -> RegistryView {
        RegistryView {
            clients: clients_view(self.users@),
            subscriptions: topics_view(self.subscriptions@),
            reverse: topics_view(self.reverse_subscriptions@),
            api_key: self.api_key@,
        }
    }
}

/// What a subscription request came to.
#[derive(Clone, Debug)]
pub enum SubscribeOutcome {
    /// The message is not a subscription.
    Ignored,
    /// The client has not authenticated; it is told so.
    NotAuthenticated,
    /// The message names no stream.
    InvalidFormat,
    /// The client now follows `stream`; `first` when no client followed it
    /// before, so that the service starts listening to it.
    Subscribed { stream: String, first: bool },
}

/// What an unsubscription request came to.
#[derive(Clone, Debug)]
pub enum UnsubscribeOutcome {
    Ignored,
    NotAuthenticated,
    InvalidFormat,
    /// The client no longer follows `stream`; `last` when no client follows
    /// it any more, so that the service stops listening to it.
    Unsubscribed { stream: String, last: bool },
}

/// The clients after connecting `id`, replacing any connection it had.
pub open spec fn with_client(c: Seq<ClientView>, id: Seq<char>) -> Seq<ClientView> {
    if has_client(c, id) {
        c.update(client_at(c, id), ClientView { id, authenticated: false })
    } else {
        c.push(ClientView { id, authenticated: false })
    }
}

pub open spec fn drop_client(c: Seq<ClientView>, id: Seq<char>) -> Seq<ClientView> {
    if has_client(c, id) {
        c.remove(client_at(c, id))
    } else {
        c
    }
}

/// The key a client presents: its message's first parameter, or nothing.
pub open spec fn presented_key(params: Seq<Seq<char>>) -> Seq<char> {
    if params.len() > 0 {
        params[0]
    } else {
        Seq::empty()
    }
}

/// The names of `names` that are connected clients, in order.
pub open spec fn connected_only(names: Seq<Seq<char>>, c: Seq<ClientView>) -> Seq<Seq<char>>
    decreases names.len(),
{
    if names.len() == 0 {
        Seq::empty()
    } else if has_client(c, names.last()) {
        connected_only(names.drop_last(), c).push(names.last())
    } else {
        connected_only(names.drop_last(), c)
    }
}

impl SubscriptionRegistry {
    pub open spec fn wf(&self) -> bool {
        &&& ids_unique(self@.clients)
        &&& keys_unique(self@.subscriptions)
        &&& keys_unique(self@.reverse)
    }

    pub fn new(api_key: String) -> (r: SubscriptionRegistry)
        ensures
            r.wf(),
            r@.clients.len() == 0,
            r@.subscriptions.len() == 0,
            r@.reverse.len() == 0,
            r@.api_key == api_key@,
    {
        SubscriptionRegistry {
            users: Vec::new(),
            subscriptions: Vec::new(),
            reverse_subscriptions: Vec::new(),
            api_key,
        }
    }

    /// The client is connected and has authenticated.
    pub fn is_authenticated(&self, user_id: &str) -> (r: bool)
        requires
            self.wf(),
        ensures
            r == authenticated_in(self@.clients, user_id@),
    {
        match find_client(&self.users, user_id) {
            Some(i) => {
                proof {
                    assert(self@.clients[i as int] == self.users@[i as int]@);
                }
                self.users[i].authenticated
            },
            None => false,
        }
    }

    /// The client is connected.
    pub fn is_connected(&self, user_id: &str) -> (r: bool)
        requires
            self.wf(),
        ensures
            r == has_client(self@.clients, user_id@),
    {
        find_client(&self.users, user_id).is_some()
    }

    /// Connects a client, not yet authenticated, replacing any connection
    /// under the same id.
    pub fn add_user(&mut self, id: String)
        requires
            old(self).wf(),
        ensures
            final(self).wf(),
            final(self)@ == (RegistryView {
                clients: with_client(old(self)@.clients, id@),
                ..old(self)@
            }),
    {
        let ghost c0 = self@.clients;
        let client = Client { id: id.clone(), authenticated: false };
        match find_client(&self.users, id.as_str()) {
            Some(i) => {
                self.users.remove(i);
                self.users.insert(i, client);
                proof {
                    assert(self@.clients =~= with_client(c0, id@));
                    let nc = self@.clients;
                    assert forall|a: int, b: int|
                        0 <= a < nc.len() && 0 <= b < nc.len() && a != b implies #[trigger] nc[a].id
                        != #[trigger] nc[b].id by {
                        assert(nc[a].id == c0[a].id);
                        assert(nc[b].id == c0[b].id);
                    }
                }
            },
            None => {
                self.users.push(client);
                proof {
                    assert(self@.clients =~= with_client(c0, id@));
                }
            },
        }
    }

    /// Disconnects a client and forgets its subscriptions.
    pub fn remove_user(&mut self, id: &str)
        requires
            old(self).wf(),
        ensures
            final(self).wf(),
            final(self)@ == (RegistryView {
                clients: drop_client(old(self)@.clients, id@),
                subscriptions: drop_key(old(self)@.subscriptions, id@),
                reverse: drop_everywhere(old(self)@.reverse, id@),
                api_key: old(self)@.api_key,
            }),
    {
        let ghost v0 = self@;
        match find_client(&self.users, id) {
            Some(i) => {
                self.users.remove(i);
                proof {
                    assert(self@.clients =~= v0.clients.remove(i as int));
                }
            },
            None => {},
        }
        match find_topic(&self.subscriptions, id) {
            Some(i) => {
                self.subscriptions.remove(i);
                proof {
                    assert(self@.subscriptions =~= v0.subscriptions.remove(i as int));
                }
            },
            None => {},
        }
        let n = self.reverse_subscriptions.len();
        let mut out: Vec<Topic> = Vec::new();
        let mut j: usize = 0;
        while j < n
            invariant
                n == self.reverse_subscriptions@.len(),
                j <= n,
                topics_view(self.reverse_subscriptions@) == v0.reverse,
                topics_view(out@) =~= drop_everywhere(v0.reverse, id@).take(j as int),
            decreases n - j,
        {
            let t = &self.reverse_subscriptions[j];
            let members = without_name(&t.members, id);
            let ghost before = topics_view(out@);
            out.push(Topic { key: t.key.clone(), members });
            proof {
                assert(v0.reverse[j as int] == t@);
                assert(topics_view(out@) =~= before.push(
                    TopicView { key: t@.key, members: without(t@.members, id@) },
                ));
            }
            j = j + 1;
        }
        self.reverse_subscriptions = out;
        proof {
            assert(self@.reverse =~= drop_everywhere(v0.reverse, id@));
            let nr = self@.reverse;
            assert forall|a: int, b: int|
                0 <= a < nr.len() && 0 <= b < nr.len() && a != b implies #[trigger] nr[a].key
                != #[trigger] nr[b].key by {
                assert(nr[a].key == v0.reverse[a].key);
                assert(nr[b].key == v0.reverse[b].key);
            }
        }
    }

    /// Checks the key a client presents; a right key marks the client as
    /// authenticated.
    pub fn authenticate(&mut self, user_id: &str, message: &WsMessage) -> (r: bool)
        requires
            old(self).wf(),
        ensures
            final(self).wf(),
            r == (presented_key(strings_view(message.params@)) == old(self)@.api_key),
            final(self)@ == (if r && has_client(old(self)@.clients, user_id@) {
                RegistryView {
                    clients: old(self)@.clients.update(
                        client_at(old(self)@.clients, user_id@),
                        ClientView { id: user_id@, authenticated: true },
                    ),
                    ..old(self)@
                }
            } else {
                old(self)@
            }),
    {
        let ghost c0 = self@.clients;
        let accepted = if self.params_key_matches(message) {
            true
        } else {
            false
        };
        if accepted {
            match find_client(&self.users, user_id) {
                Some(i) => {
                    let mut c = self.users.remove(i);
                    c.authenticated = true;
                    self.users.insert(i, c);
                    proof {
                        assert(self@.clients =~= c0.update(
                            i as int,
                            ClientView { id: user_id@, authenticated: true },
                        ));
                        let nc = self@.clients;
                        assert forall|a: int, b: int|
                            0 <= a < nc.len() && 0 <= b < nc.len() && a != b implies #[trigger] nc[a].id
                            != #[trigger] nc[b].id by {
                            assert(nc[a].id == c0[a].id);
                            assert(nc[b].id == c0[b].id);
                        }
                    }
                },
                None => {},
            }
        }
        accepted
    }

    fn params_key_matches(&self, message: &WsMessage) -> (r: bool)
        ensures
            r == (presented_key(strings_view(message.params@)) == self@.api_key),
    {
        if message.params.len() > 0 {
            proof {
                assert(strings_view(message.params@)[0] == message.params@[0]@);
            }
            str_eq(message.params[0].as_str(), self.api_key.as_str())
        } else {
            proof {
                reveal_strlit("");
                assert(""@ =~= Seq::<char>::empty());
            }
            str_eq("", self.api_key.as_str())
        }
    }

    /// The connected clients that follow `stream`, in the order they
    /// subscribed.
    pub fn recipients(&self, stream: &str) -> (r: Vec<String>)
        requires
            self.wf(),
        ensures
            strings_view(r@) == connected_only(members_of(self@.reverse, stream@), self@.clients),
    {
        let i = match find_topic(&self.reverse_subscriptions, stream) {
            Some(i) => i,
            None => {
                let r: Vec<String> = Vec::new();
                proof {
                    assert(strings_view(r@) =~= Seq::<Seq<char>>::empty());
                }
                return r;
            },
        };
        let members = &self.reverse_subscriptions[i].members;
        let ghost mv = strings_view(members@);
        proof {
            assert(self@.reverse[i as int] == self.reverse_subscriptions@[i as int]@);
            assert(members_of(self@.reverse, stream@) == mv);
        }
        let mut r: Vec<String> = Vec::new();
        let n = members.len();
        let mut j: usize = 0;
        proof {
            assert(mv.take(0) =~= Seq::<Seq<char>>::empty());
            assert(strings_view(r@) =~= Seq::<Seq<char>>::empty());
        }
        while j < n
            invariant
                n == members@.len(),
                mv == strings_view(members@),
                j <= n,
                self.wf(),
                strings_view(r@) == connected_only(mv.take(j as int), self@.clients),
            decreases n - j,
        {
            let ghost before = strings_view(r@);
            proof {
                let t = mv.take(j + 1);
                assert(t.drop_last() =~= mv.take(j as int));
                assert(t.last() == members@[j as int]@);
            }
            if self.is_connected(members[j].as_str()) {
                r.push(members[j].clone());
                proof {
                    assert(strings_view(r@) =~= before.push(members@[j as int]@));
                }
            }
            j = j + 1;
        }
        proof {
            assert(mv.take(n as int) =~= mv);
        }
        r
    }
}

/// Files `m` under `k`.
fn push_member(t: &mut Vec<Topic>, k: &str, m: &str)
    requires
        keys_unique(topics_view(old(t)@)),
    ensures
        keys_unique(topics_view(final(t)@)),
        topics_view(final(t)@) == with_member(topics_view(old(t)@), k@, m@),
{
    let ghost t0 = topics_view(t@);
    match find_topic(t, k) {
        Some(i) => {
            let mut e = t.remove(i);
            let ghost e0 = e;
            e.members.push(String::from_str(m));
            t.insert(i, e);
            proof {
                assert(t0[i as int] == e0@);
                assert(strings_view(e.members@) =~= strings_view(e0.members@).push(m@));
                assert(topics_view(t@) =~= with_member(t0, k@, m@));
                let nt = topics_view(t@);
                assert forall|a: int, b: int|
                    0 <= a < nt.len() && 0 <= b < nt.len() && a != b implies #[trigger] nt[a].key
                    != #[trigger] nt[b].key by {
                    assert(nt[a].key == t0[a].key);
                    assert(nt[b].key == t0[b].key);
                }
            }
        },
        None => {
            let mut members: Vec<String> = Vec::new();
            members.push(String::from_str(m));
            t.push(Topic { key: String::from_str(k), members });
            proof {
                assert(strings_view(members@) =~= seq![m@]);
                assert(topics_view(t@) =~= with_member(t0, k@, m@));
                let nt = topics_view(t@);
                assert forall|a: int, b: int|
                    0 <= a < nt.len() && 0 <= b < nt.len() && a != b implies #[trigger] nt[a].key
                    != #[trigger] nt[b].key by {
                    if a < t0.len() {
                        assert(nt[a].key == t0[a].key);
                    }
                    if b < t0.len() {
                        assert(nt[b].key == t0[b].key);
                    }
                }
            }
        },
    }
}

/// Takes every `m` out of the list under key position `i`.
fn drop_member_at(t: &mut Vec<Topic>, i: usize, m: &str)
    requires
        keys_unique(topics_view(old(t)@)),
        i < old(t)@.len(),
    ensures
        keys_unique(topics_view(final(t)@)),
        topics_view(final(t)@) == topics_view(old(t)@).update(
            i as int,
            TopicView {
                key: topics_view(old(t)@)[i as int].key,
                members: without(topics_view(old(t)@)[i as int].members, m@),
            },
        ),
{
    let ghost t0 = topics_view(t@);
    let e = t.remove(i);
    let members = without_name(&e.members, m);
    let ghost e0 = e;
    t.insert(i, Topic { key: e.key, members });
    proof {
        assert(t0[i as int] == e0@);
        assert(topics_view(t@) =~= t0.update(
            i as int,
            TopicView { key: t0[i as int].key, members: without(t0[i as int].members, m@) },
        ));
        let nt = topics_view(t@);
        assert forall|a: int, b: int|
            0 <= a < nt.len() && 0 <= b < nt.len() && a != b implies #[trigger] nt[a].key
            != #[trigger] nt[b].key by {
            assert(nt[a].key == t0[a].key);
            assert(nt[b].key == t0[b].key);
        }
    }
}

/// `r` and the registry `v1` answer a subscription of `user` with the
/// parameters `params` to the registry `v0`: an unauthenticated client or a
/// malformed stream leaves it as it was; otherwise the client follows the
/// stream, and `first` tells whether nobody followed it before.
pub open spec fn subscribe_answered(
    v0: RegistryView,
    user: Seq<char>,
    params: Seq<Seq<char>>,
    r: SubscribeOutcome,
    v1: RegistryView,
) -> bool {
    if !authenticated_in(v0.clients, user) {
        r is NotAuthenticated && v1 == v0
    } else {
        match subscription_of(params) {
            None => r is InvalidFormat && v1 == v0,
            Some(tp) => {
                let id = subscription_id_of(tp.0, tp.1);
                &&& r matches SubscribeOutcome::Subscribed { stream, first } && stream@ == id
                    && first == (members_of(v0.reverse, id).len() == 0)
                &&& v1 == (RegistryView {
                    subscriptions: with_member(v0.subscriptions, user, id),
                    reverse: with_member(v0.reverse, id, user),
                    ..v0
                })
            },
        }
    }
}

/// `r` and the registry `v1` answer an unsubscription of `user` with the
/// parameters `params` from the registry `v0`: an unauthenticated client or
/// a malformed stream leaves it as it was; otherwise the client no longer
/// follows the stream, which is forgotten when nobody follows it any more
/// (`last`).
pub open spec fn unsubscribe_answered(
    v0: RegistryView,
    user: Seq<char>,
    params: Seq<Seq<char>>,
    r: UnsubscribeOutcome,
    v1: RegistryView,
) -> bool {
    if !authenticated_in(v0.clients, user) {
        r is NotAuthenticated && v1 == v0
    } else {
        match subscription_of(params) {
            None => r is InvalidFormat && v1 == v0,
            Some(tp) => {
                let id = subscription_id_of(tp.0, tp.1);
                let left = without(members_of(v0.reverse, id), user);
                let last = has_key(v0.reverse, id) && left.len() == 0;
                &&& r matches UnsubscribeOutcome::Unsubscribed { stream, last: l } && stream@ == id
                    && l == last
                &&& v1 == (RegistryView {
                    subscriptions: drop_member(v0.subscriptions, user, id),
                    reverse: if last {
                        drop_key(v0.reverse, id)
                    } else {
                        drop_member(v0.reverse, id, user)
                    },
                    ..v0
                })
            },
        }
    }
}

impl SubscriptionRegistry {
    /// Subscribes an authenticated client to the stream its message names.
    pub fn subscribe(&mut self, user_id: &str, message: &WsMessage) -> (r: SubscribeOutcome)
        requires
            old(self).wf(),
        ensures
            final(self).wf(),
            message.method@ != "SUBSCRIBE"@ ==> r is Ignored && final(self)@ == old(self)@,
            message.method@ == "SUBSCRIBE"@ ==> subscribe_answered(
                old(self)@,
                user_id@,
                strings_view(message.params@),
                r,
                final(self)@,
            ),
    {
        if !str_eq(message.method.as_str(), "SUBSCRIBE") {
            return SubscribeOutcome::Ignored;
        }
        if !self.is_authenticated(user_id) {
            return SubscribeOutcome::NotAuthenticated;
        }
        let (t, p) = match message.parse_subscription() {
            Some(tp) => tp,
            None => return SubscribeOutcome::InvalidFormat,
        };
        let stream = subscription_id(t, p);
        let first = match find_topic(&self.reverse_subscriptions, stream.as_str()) {
            Some(i) => {
                proof {
                    assert(self@.reverse[i as int] == self.reverse_subscriptions@[i as int]@);
                }
                self.reverse_subscriptions[i].members.len() == 0
            },
            None => true,
        };
        push_member(&mut self.subscriptions, user_id, stream.as_str());
        push_member(&mut self.reverse_subscriptions, stream.as_str(), user_id);
        SubscribeOutcome::Subscribed { stream, first }
    }

    /// Unsubscribes an authenticated client from the stream its message
    /// names; a stream nobody follows any more is forgotten.
    pub fn unsubscribe(&mut self, user_id: &str, message: &WsMessage) -> (r: UnsubscribeOutcome)
        requires
            old(self).wf(),
        ensures
            final(self).wf(),
            message.method@ != "UNSUBSCRIBE"@ ==> r is Ignored && final(self)@ == old(self)@,
            message.method@ == "UNSUBSCRIBE"@ ==> unsubscribe_answered(
                old(self)@,
                user_id@,
                strings_view(message.params@),
                r,
                final(self)@,
            ),
    {
        if !str_eq(message.method.as_str(), "UNSUBSCRIBE") {
            return UnsubscribeOutcome::Ignored;
        }
        if !self.is_authenticated(user_id) {
            return UnsubscribeOutcome::NotAuthenticated;
        }
        let (t, p) = match message.parse_subscription() {
            Some(tp) => tp,
            None => return UnsubscribeOutcome::InvalidFormat,
        };
        let stream = subscription_id(t, p);
        let ghost v0 = self@;
        match find_topic(&self.subscriptions, user_id) {
            Some(i) => drop_member_at(&mut self.subscriptions, i, stream.as_str()),
            None => {},
        }
        let last = match find_topic(&self.reverse_subscriptions, stream.as_str()) {
            Some(i) => {
                drop_member_at(&mut self.reverse_subscriptions, i, user_id);
                proof {
                    assert(topics_view(self.reverse_subscriptions@).len() == self.reverse_subscriptions@.len());
                    assert(self.reverse_subscriptions@.len() == v0.reverse.len());
                    assert(self@.reverse[i as int].members == without(v0.reverse[i as int].members, user_id@));
                    assert(self@.reverse[i as int] == self.reverse_subscriptions@[i as int]@);
                }
                if self.reverse_subscriptions[i].members.len() == 0 {
                    let ghost r1 = self@.reverse;
                    self.reverse_subscriptions.remove(i);
                    proof {
                        assert(self@.reverse =~= r1.remove(i as int));
                        assert(r1.remove(i as int) =~= v0.reverse.remove(i as int));
                        let nr = self@.reverse;
                        assert forall|a: int, b: int|
                            0 <= a < nr.len() && 0 <= b < nr.len() && a != b implies #[trigger] nr[a].key
                            != #[trigger] nr[b].key by {
                            let a0 = if a < i { a } else { a + 1 };
                            let b0 = if b < i { b } else { b + 1 };
                            assert(nr[a].key == v0.reverse[a0].key);
                            assert(nr[b].key == v0.reverse[b0].key);
                        }
                    }
                    true
                } else {
                    false
                }
            },
            None => false,
        };
        UnsubscribeOutcome::Unsubscribed { stream, last }
    }
}

/// What a message from an admitted client came to.
#[derive(Clone, Debug)]
pub enum ClientOutcome {
    Subscribe(SubscribeOutcome),
    Unsubscribe(UnsubscribeOutcome),
    /// Neither a subscription nor an unsubscription.
    Ignored,
}

impl SubscriptionRegistry {
    /// Admits a new connection on its first message, which must be an
    /// `AUTH` carrying the right key; anything else, or nothing, refuses it.
    pub fn accept_first_message(&mut self, user_id: &str, first: Option<&WsMessage>) -> (r: bool)
        requires
            old(self).wf(),
        ensures
            final(self).wf(),
            match first {
                Some(m) if m.method@ == "AUTH"@ => {
                    &&& r == (presented_key(strings_view(m.params@)) == old(self)@.api_key)
                    &&& final(self)@ == (if r && has_client(old(self)@.clients, user_id@) {
                        RegistryView {
                            clients: old(self)@.clients.update(
                                client_at(old(self)@.clients, user_id@),
                                ClientView { id: user_id@, authenticated: true },
                            ),
                            ..old(self)@
                        }
                    } else {
                        old(self)@
                    })
                },
                _ => !r && final(self)@ == old(self)@,
            },
    {
        match first {
            Some(m) => {
                if str_eq(m.method.as_str(), "AUTH") {
                    self.authenticate(user_id, m)
                } else {
                    false
                }
            },
            None => false,
        }
    }

    /// Carries out a message of an admitted client.
    pub fn process_data(&mut self, user_id: &str, message: &WsMessage) -> (r: ClientOutcome)
        requires
            old(self).wf(),
        ensures
            final(self).wf(),
            message.method@ == "SUBSCRIBE"@ ==> (r matches ClientOutcome::Subscribe(x)
                && subscribe_answered(
                old(self)@,
                user_id@,
                strings_view(message.params@),
                x,
                final(self)@,
            )),
            message.method@ == "UNSUBSCRIBE"@ ==> (r matches ClientOutcome::Unsubscribe(x)
                && unsubscribe_answered(
                old(self)@,
                user_id@,
                strings_view(message.params@),
                x,
                final(self)@,
            )),
            message.method@ != "SUBSCRIBE"@ && message.method@ != "UNSUBSCRIBE"@ ==> r is Ignored
                && final(self)@ == old(self)@,
    {
        proof {
            reveal_strlit("SUBSCRIBE");
            reveal_strlit("UNSUBSCRIBE");
            assert("SUBSCRIBE"@.len() != "UNSUBSCRIBE"@.len());
        }
        if str_eq(message.method.as_str(), "SUBSCRIBE") {
            ClientOutcome::Subscribe(self.subscribe(user_id, message))
        } else if str_eq(message.method.as_str(), "UNSUBSCRIBE") {
            ClientOutcome::Unsubscribe(self.unsubscribe(user_id, message))
        } else {
            ClientOutcome::Ignored
        }
    }
}

proof fn lemma_without_excludes(s: Seq<Seq<char>>, x: Seq<char>)
    ensures
        !without(s, x).contains(x),
    decreases s.len(),
{
    if s.len() > 0 {
        lemma_without_excludes(s.drop_last(), x);
        let w = without(s.drop_last(), x);
        if s.last() != x {
            assert forall|i: int| 0 <= i < w.push(s.last()).len() implies w.push(s.last())[i] != x by {
                if i < w.len() {
                    assert(w.push(s.last())[i] == w[i]);
                }
            }
        }
    }
}

/// A client that subscribed to a stream follows it: it is among the
/// clients the stream's events go to.
pub proof fn law_subscriber_follows_stream(reverse: Seq<TopicView>, stream: Seq<char>, user: Seq<char>)
    requires
        keys_unique(reverse),
    ensures
        members_of(with_member(reverse, stream, user), stream).contains(user),
{
    let t = with_member(reverse, stream, user);
    if has_key(reverse, stream) {
        let i = key_at(reverse, stream);
        assert(t[i].key == stream);
        let j = key_at(t, stream);
        assert(t[j].key == stream);
        if j != i {
            assert(t[j] == reverse[j]);
        }
        assert(t[i].members.last() == user);
        assert(t[i].members[t[i].members.len() - 1] == user);
    } else {
        let i = reverse.len() as int;
        assert(t[i].key == stream);
        let j = key_at(t, stream);
        assert(t[j].key == stream);
        if j != i {
            assert(t[j] == reverse[j]);
        }
        assert(t[i].members[0] == user);
    }
}

/// A client that unsubscribed from a stream follows it no more, whether
/// the stream is kept for others or forgotten.
pub proof fn law_unsubscriber_leaves_stream(reverse: Seq<TopicView>, stream: Seq<char>, user: Seq<char>)
    requires
        keys_unique(reverse),
    ensures
        !members_of(drop_member(reverse, stream, user), stream).contains(user),
        !members_of(drop_key(reverse, stream), stream).contains(user),
{
    if has_key(reverse, stream) {
        let i = key_at(reverse, stream);
        let t = drop_member(reverse, stream, user);
        lemma_without_excludes(reverse[i].members, user);
        assert(t[i].key == stream);
        let j = key_at(t, stream);
        assert(t[j].key == stream);
        if j != i {
            assert(t[j] == reverse[j]);
        }
        let d = drop_key(reverse, stream);
        if has_key(d, stream) {
            let k = key_at(d, stream);
            let k0 = if k < i { k } else { k + 1 };
            assert(d[k] == reverse[k0]);
        }
    }
}


proof fn lemma_members_with(t: Seq<TopicView>, k: Seq<char>, m: Seq<char>)
    requires
        keys_unique(t),
    ensures
        members_of(with_member(t, k, m), k) == members_of(t, k).push(m),
        keys_unique(with_member(t, k, m)),
{
    let w = with_member(t, k, m);
    if has_key(t, k) {
        let i = key_at(t, k);
        assert(w[i].key == k);
        let j = key_at(w, k);
        if j != i {
            assert(w[j] == t[j]);
        }
        assert forall|a: int, b: int| 0 <= a < w.len() && 0 <= b < w.len() && a != b implies #[trigger] w[a].key
            != #[trigger] w[b].key by {
            assert(w[a].key == t[a].key);
            assert(w[b].key == t[b].key);
        }
    } else {
        let i = t.len() as int;
        assert(w[i].key == k);
        let j = key_at(w, k);
        if j != i {
            assert(w[j] == t[j]);
        }
        assert(seq![m] =~= Seq::<Seq<char>>::empty().push(m));
        assert forall|a: int, b: int| 0 <= a < w.len() && 0 <= b < w.len() && a != b implies #[trigger] w[a].key
            != #[trigger] w[b].key by {
            if a < t.len() && b < t.len() {
                assert(w[a] == t[a] && w[b] == t[b]);
            } else if a < t.len() {
                assert(w[a] == t[a]);
            } else {
                assert(w[b] == t[b]);
            }
        }
    }
}

proof fn lemma_members_drop_member(t: Seq<TopicView>, k: Seq<char>, m: Seq<char>)
    requires
        keys_unique(t),
    ensures
        members_of(drop_member(t, k, m), k) == without(members_of(t, k), m),
{
    if has_key(t, k) {
        let i = key_at(t, k);
        let d = drop_member(t, k, m);
        assert(d[i].key == k);
        let j = key_at(d, k);
        if j != i {
            assert(d[j] == t[j]);
        }
    } else {
        assert(without(Seq::<Seq<char>>::empty(), m) == Seq::<Seq<char>>::empty());
    }
}

proof fn lemma_members_drop_key(t: Seq<TopicView>, k: Seq<char>)
    requires
        keys_unique(t),
    ensures
        members_of(drop_key(t, k), k) == Seq::<Seq<char>>::empty(),
{
    if has_key(t, k) {
        let i = key_at(t, k);
        let d = drop_key(t, k);
        if has_key(d, k) {
            let j = key_at(d, k);
            let j0 = if j < i { j } else { j + 1 };
            assert(d[j] == t[j0]);
        }
    }
}

proof fn lemma_without_absent(s: Seq<Seq<char>>, x: Seq<char>)
    requires
        !s.contains(x),
    ensures
        without(s, x) == s,
    decreases s.len(),
{
    if s.len() > 0 {
        assert(s.last() == s[s.len() - 1]);
        assert(!s.drop_last().contains(x)) by {
            if s.drop_last().contains(x) {
                let i = choose|i: int| 0 <= i < s.drop_last().len() && s.drop_last()[i] == x;
                assert(s[i] == x);
            }
        }
        lemma_without_absent(s.drop_last(), x);
        assert(s.drop_last().push(s.last()) =~= s);
    }
}

proof fn lemma_without_pushed(s: Seq<Seq<char>>, x: Seq<char>)
    ensures
        without(s.push(x), x) == without(s, x),
{
    assert(s.push(x).drop_last() =~= s);
}

/// Unsubscribing right after subscribing undoes the subscription: a client
/// that did not follow a stream, subscribes to it and then unsubscribes,
/// leaves the stream's followers and its own streams as they were.
pub proof fn law_unsubscribe_undoes_subscribe(
    v0: RegistryView,
    user: Seq<char>,
    params: Seq<Seq<char>>,
    r1: SubscribeOutcome,
    v1: RegistryView,
    r2: UnsubscribeOutcome,
    v2: RegistryView,
)
    requires
        keys_unique(v0.subscriptions),
        keys_unique(v0.reverse),
        subscribe_answered(v0, user, params, r1, v1),
        unsubscribe_answered(v1, user, params, r2, v2),
        subscription_of(params) matches Some(tp) && !members_of(
            v0.reverse,
            subscription_id_of(tp.0, tp.1),
        ).contains(user) && !members_of(v0.subscriptions, user).contains(
            subscription_id_of(tp.0, tp.1),
        ),
    ensures
        v2.clients == v0.clients,
        ({
            let tp = subscription_of(params)->0;
            let id = subscription_id_of(tp.0, tp.1);
            &&& members_of(v2.reverse, id) == members_of(v0.reverse, id)
            &&& members_of(v2.subscriptions, user) == members_of(v0.subscriptions, user)
        }),
{
    let tp = subscription_of(params)->0;
    let id = subscription_id_of(tp.0, tp.1);
    if authenticated_in(v0.clients, user) {
        lemma_members_with(v0.reverse, id, user);
        lemma_members_with(v0.subscriptions, user, id);
        lemma_without_pushed(members_of(v0.reverse, id), user);
        lemma_without_pushed(members_of(v0.subscriptions, user), id);
        lemma_without_absent(members_of(v0.reverse, id), user);
        lemma_without_absent(members_of(v0.subscriptions, user), id);
        lemma_members_drop_member(v1.subscriptions, user, id);
        let left = without(members_of(v1.reverse, id), user);
        let last = has_key(v1.reverse, id) && left.len() == 0;
        if last {
            lemma_members_drop_key(v1.reverse, id);
            if has_key(v0.reverse, id) {
                assert(members_of(v0.reverse, id) == left);
            }
        } else {
            lemma_members_drop_member(v1.reverse, id, user);
        }
    }
}

} // verus!
