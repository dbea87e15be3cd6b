//! URLs of peers.

use crate::membership::text_views;
use crate::outside::{parse_url, parsed_url};
use crate::text::{joined, text_equal};
use vstd::prelude::*;

verus! {

/// A URL: as it is written, its scheme, and whether it has a host.
#[derive(Debug)]
pub struct PeerUrl {
    pub text: String,
    pub scheme: String,
    pub has_host: bool,
}

/// What a [`PeerUrl`] says.
#[verifier::ext_equal]
pub struct PeerUrlView {
    pub text: Seq<char>,
    pub scheme: Seq<char>,
    pub has_host: bool,
}

impl View for PeerUrl {
    type V = PeerUrlView;

    open spec fn view(&self) -> PeerUrlView {
        PeerUrlView { text: self.text@, scheme: self.scheme@, has_host: self.has_host }
    }
}

impl PeerUrl {
    /// The scheme.
    pub fn scheme(&self) -> (r: &str)
        ensures
            r@ == self@.scheme,
    {
        self.scheme.as_str()
    }
}

/// The URL of a peer, given what has been read in its text: it needs a host, and one
/// of two schemes.
pub open spec fn peer_url(
    url: Seq<char>,
    read: Result<(Seq<char>, Seq<char>, bool), Seq<char>>,
) -> Result<PeerUrlView, Seq<char>> {
    match read {
        Err(e) => Err("invalid peer URL '"@ + url + "': "@ + e),
        Ok(u) => if !u.2 {
            Err("peer URL '"@ + url + "' has no host"@)
        } else if u.1 != "http"@ && u.1 != "https"@ {
            Err("peer URL '"@ + url + "' has unsupported scheme '"@ + u.1 + "'"@)
        } else {
            Ok(PeerUrlView { text: u.0, scheme: u.1, has_host: u.2 })
        },
    }
}

/// The URLs of peers, or the first error.
pub open spec fn peer_urls(urls: Seq<Seq<char>>) -> Result<Seq<PeerUrlView>, Seq<char>>
    decreases urls.len(),
{
    if urls.len() == 0 {
        Ok(Seq::empty())
    } else {
        match peer_urls(urls.drop_last()) {
            Err(e) => Err(e),
            Ok(before) => match peer_url(urls.last(), parsed_url(urls.last())) {
                Err(e) => Err(e),
                Ok(u) => Ok(before.push(u)),
            },
        }
    }
}

/// The views of some URLs.
pub open spec fn url_views(s: Seq<PeerUrl>) -> Seq<PeerUrlView> {
    s.map_values(|u: PeerUrl| u@)
}

/// Checks what has been read in the URL of a peer.
pub fn check_peer_url(url: &str, read: Result<(String, String, bool), String>) -> (r: Result<
    PeerUrl,
    String,
>)
    ensures
        ({
            let s = match read {
                Ok(u) => Ok((u.0@, u.1@, u.2)),
                Err(e) => Err(e@),
            };
            match r {
                Ok(u) => peer_url(url@, s) == Ok::<PeerUrlView, Seq<char>>(u@),
                Err(e) => peer_url(url@, s) == Err::<PeerUrlView, Seq<char>>(e@),
            }
        }),
{
    match read {
        Err(e) => {
            let mut text = joined("invalid peer URL '", url);
            text.append("': ");
            text.append(e.as_str());
            Err(text)
        },
        Ok(u) => {
            if !u.2 {
                let mut text = joined("peer URL '", url);
                text.append("' has no host");
                return Err(text);
            }
            if !text_equal(u.1.as_str(), "http") && !text_equal(u.1.as_str(), "https") {
                let mut text = joined("peer URL '", url);
                text.append("' has unsupported scheme '");
                text.append(u.1.as_str());
                text.append("'");
                return Err(text);
            }
            Ok(PeerUrl { text: u.0, scheme: u.1, has_host: u.2 })
        },
    }
}

proof fn lemma_first_error(urls: Seq<Seq<char>>, i: int)
    requires
        0 <= i <= urls.len(),
        peer_urls(urls.take(i)) is Err,
    ensures
        peer_urls(urls) == peer_urls(urls.take(i)),
    decreases urls.len(),
{
    if i < urls.len() {
        assert(urls.drop_last().take(i) =~= urls.take(i));
        lemma_first_error(urls.drop_last(), i);
    } else {
        assert(urls.take(i) =~= urls);
    }
}

/// Reads and checks the URLs of peers.
pub fn parse_peer_urls(urls: &[String]) -> (r: Result<Vec<PeerUrl>, String>)
    ensures
        match r {
            Ok(v) => peer_urls(text_views(urls@)) == Ok::<Seq<PeerUrlView>, Seq<char>>(
                url_views(v@),
            ),
            Err(e) => peer_urls(text_views(urls@)) == Err::<Seq<PeerUrlView>, Seq<char>>(e@),
        },
{
    let ghost all = text_views(urls@);
    let mut r: Vec<PeerUrl> = Vec::new();
    let mut i: usize = 0;
    assert(all.take(0) =~= Seq::empty());
    assert(url_views(r@) =~= Seq::empty());
    while i < urls.len()
        invariant
            i <= urls@.len(),
            all == text_views(urls@),
            peer_urls(all.take(i as int)) == Ok::<Seq<PeerUrlView>, Seq<char>>(url_views(r@)),
        decreases urls@.len() - i,
    {
        let url = urls[i].as_str();
        let ghost next = all.take(i + 1);
        proof {
            assert(next.drop_last() =~= all.take(i as int));
            assert(next.last() == url@);
        }
        match check_peer_url(url, parse_url(url)) {
            Err(e) => {
                proof {
                    lemma_first_error(all, i + 1);
                }
                return Err(e);
            },
            Ok(u) => {
                let ghost before = url_views(r@);
                r.push(u);
                assert(url_views(r@) =~= before.push(u@));
            },
        }
        i += 1;
    }
    assert(all.take(all.len() as int) =~= all);
    Ok(r)
}

// ------------------------------------------------------------------- laws

/// A URL is that of a peer if and only if it can be read, has a host, and has one of the
/// two schemes. Then it is told as it was read.
pub proof fn law_urls_of_peers(
    url: Seq<char>,
    read: Result<(Seq<char>, Seq<char>, bool), Seq<char>>,
)
    ensures
        peer_url(url, read) is Ok == (read matches Ok(u) && u.2 && (u.1 == "http"@ || u.1
            == "https"@)),
        peer_url(url, read) matches Ok(v) ==> {
            &&& v.text == read->Ok_0.0
            &&& v.scheme == read->Ok_0.1
            &&& v.has_host
        },
{
}

/// A list of URLs is read if and only if each of them is, and then they keep their order.
pub proof fn law_lists_of_urls(urls: Seq<Seq<char>>)
    ensures
        peer_urls(urls) is Ok == forall|i: int|
            0 <= i < urls.len() ==> peer_url(#[trigger] urls[i], parsed_url(urls[i])) is Ok,
        peer_urls(urls) matches Ok(vs) ==> {
            &&& vs.len() == urls.len()
            &&& forall|i: int|
                #![trigger vs[i]]
                0 <= i < urls.len() ==> peer_url(urls[i], parsed_url(urls[i])) == Ok::<
                    PeerUrlView,
                    Seq<char>,
                >(vs[i])
        },
    decreases urls.len(),
{
    if urls.len() > 0 {
        let front = urls.drop_last();
        let n = urls.len() - 1;
        law_lists_of_urls(front);
        assert(urls[n] == urls.last());
        if peer_urls(front) is Ok {
            assert forall|i: int| 0 <= i < n implies peer_url(
                #[trigger] urls[i],
                parsed_url(urls[i]),
            ) is Ok by {
                assert(front[i] == urls[i]);
            }
            if peer_urls(urls) is Ok {
                let vs = peer_urls(urls)->Ok_0;
                let before = peer_urls(front)->Ok_0;
                assert forall|i: int| #![trigger vs[i]] 0 <= i < urls.len() implies peer_url(
                    urls[i],
                    parsed_url(urls[i]),
                ) == Ok::<PeerUrlView, Seq<char>>(vs[i]) by {
                    if i < n {
                        assert(vs[i] == before[i]);
                        assert(front[i] == urls[i]);
                    }
                }
            }
        } else {
            let j = choose|j: int|
                0 <= j < front.len() && peer_url(#[trigger] front[j], parsed_url(front[j])) is Err;
            assert(urls[j] == front[j]);
        }
    }
}

} // verus!
