//! The certificates that a server's certificate is checked against, and the
//! other settings of the TLS session.

use rustls::RootCertStore;
use vstd::prelude::*;
use vstd::string::StringExecFns;

verus! {

/// A trust anchor: its subject, its public key and, where it has them, its
/// name constraints, each in DER.
pub type Anchor = (Seq<u8>, Seq<u8>, Option<Seq<u8>>);

/// The outside type `rustls::RootCertStore`.
#[verifier::external_type_specification]
#[verifier::external_body]
pub struct ExRootCertStore(RootCertStore);

/// The trust anchors that a store holds, in their order.
pub uninterp spec fn store_anchors(store: RootCertStore) -> Seq<Anchor>;

/// The trust anchor at place `i` of the list `webpki_roots::TLS_SERVER_ROOTS`,
/// which has none outside its bounds.
pub uninterp spec fn webpki_root(i: int) -> Option<Anchor>;

/// The trust anchor that `RootCertStore::add` makes of a certificate in DER,
/// or what its error says.
pub uninterp spec fn trust_anchor(der: Seq<u8>) -> Result<Anchor, Seq<char>>;

/// The certificates, in DER, that `rustls_pemfile::certs` finds in a PEM text,
/// or what the first error says.
pub uninterp spec fn pem_certificates(pem: Seq<u8>) -> Result<Seq<Seq<u8>>, Seq<char>>;

/// A `rustls::RootCertStore` with a copy of `webpki_roots::TLS_SERVER_ROOTS`:
/// it holds the anchors of that constant list, all of them and in its order.
#[verifier::external_body]
fn webpki_store() -> (r: RootCertStore)
    ensures
        forall|i: int|
            #[trigger] webpki_root(i) == (if 0 <= i < store_anchors(r).len() {
                Some(store_anchors(r)[i])
            } else {
                None
            }),
{
    RootCertStore { roots: webpki_roots::TLS_SERVER_ROOTS.to_vec() }
}

/// `RootCertStore::add` of the crate `rustls`, with the error turned into its
/// message.  It parses the certificate and appends its trust anchor, or fails
/// and leaves the store as it was.  Both the anchor and the message are
/// functions of the certificate's bytes; they are named, not spelled out.
#[verifier::external_body]
fn add_root(store: &mut RootCertStore, der: &[u8]) -> (r: Result<(), String>)
    ensures
        match trust_anchor(der@) {
            Ok(anchor) => {
                &&& r is Ok
                &&& store_anchors(*final(store)) == store_anchors(*old(store)).push(anchor)
            },
            Err(text) => {
                &&& r is Err
                &&& r->Err_0@ == text
                &&& store_anchors(*final(store)) == store_anchors(*old(store))
            },
        },
{
    store.add(rustls::pki_types::CertificateDer::from(der)).map_err(|e| e.to_string())
}

/// The mathematical value of a list of certificates.
pub open spec fn certs_view(certs: Seq<Vec<u8>>) -> Seq<Seq<u8>> {
    Seq::new(certs.len(), |i: int| certs[i]@)
}

/// The mathematical value of parsed PEM.
pub open spec fn pem_view(parsed: Result<Vec<Vec<u8>>, String>) -> Result<
    Seq<Seq<u8>>,
    Seq<char>,
> {
    match parsed {
        Ok(certs) => Ok(certs_view(certs@)),
        Err(e) => Err(e@),
    }
}

/// `rustls_pemfile::certs` over a slice in memory, collected up to the first
/// error, with each certificate copied and the error turned into its message.
/// The outcome is a function of the bytes; it is named, not spelled out.
#[verifier::external_body]
fn pem_certs(pem: &[u8]) -> (r: Result<Vec<Vec<u8>>, String>)
    ensures
        pem_view(r) == pem_certificates(pem@),
{
    rustls_pemfile::certs(&mut std::io::Cursor::new(pem))
        .map(|cert| cert.map(|der| der.to_vec()))
        .collect::<Result<Vec<Vec<u8>>, std::io::Error>>()
        .map_err(|e| e.to_string())
}

/// The anchors `base`, then those of the certificates `ders`; or the complaint
/// about the first certificate that has none.
pub open spec fn with_certs(base: Seq<Anchor>, ders: Seq<Seq<u8>>) -> Result<
    Seq<Anchor>,
    Seq<char>,
>
    decreases ders.len(),
{
    if ders.len() == 0 {
        Ok(base)
    } else {
        match with_certs(base, ders.drop_last()) {
            Err(e) => Err(e),
            Ok(anchors) => match trust_anchor(ders.last()) {
                Ok(anchor) => Ok(anchors.push(anchor)),
                Err(text) => Err("hysteria2: failed to add CA cert: "@ + text),
            },
        }
    }
}

/// The anchors `base`, then those of the certificates of a CA bundle; or the
/// complaint about the bundle.
pub open spec fn with_bundle(
    base: Seq<Anchor>,
    parsed: Result<Seq<Seq<u8>>, Seq<char>>,
) -> Result<Seq<Anchor>, Seq<char>> {
    match parsed {
        Err(text) => Err("hysteria2: failed to parse CA PEM: "@ + text),
        Ok(ders) => if ders.len() == 0 {
            Err("hysteria2: ca/ca-str contained no valid certificates"@)
        } else {
            with_certs(base, ders)
        },
    }
}

proof fn lemma_with_certs_error_stands(base: Seq<Anchor>, ders: Seq<Seq<u8>>, k: int)
    requires
        0 <= k <= ders.len(),
        with_certs(base, ders.take(k)) is Err,
    ensures
        with_certs(base, ders) == with_certs(base, ders.take(k)),
    decreases ders.len(),
{
    if k == ders.len() {
        assert(ders.take(k) =~= ders);
    } else {
        assert(ders.drop_last().take(k) =~= ders.take(k));
        lemma_with_certs_error_stands(base, ders.drop_last(), k);
    }
}

/// Adds the certificates of a parsed CA bundle to a store, in their order.
pub fn add_bundle(store: RootCertStore, parsed: Result<Vec<Vec<u8>>, String>) -> (r: Result<
    RootCertStore,
    String,
>)
    ensures
        match with_bundle(store_anchors(store), pem_view(parsed)) {
            Ok(anchors) => r is Ok && store_anchors(r->Ok_0) == anchors,
            Err(text) => r is Err && r->Err_0@ == text,
        },
{
    let certs = match parsed {
        Ok(certs) => certs,
        Err(e) => {
            let mut text = "hysteria2: failed to parse CA PEM: ".to_owned();
            text.append(e.as_str());
            return Err(text);
        },
    };
    if certs.len() == 0 {
        return Err("hysteria2: ca/ca-str contained no valid certificates".to_owned());
    }
    let ghost base = store_anchors(store);
    let ghost ders = certs_view(certs@);
    let mut out = store;
    let n = certs.len();
    let mut i: usize = 0;
    assert(ders.take(0) =~= Seq::empty());
    while i < n
        invariant
            i <= n == certs@.len(),
            n > 0,
            pem_view(parsed) == Ok::<Seq<Seq<u8>>, Seq<char>>(ders),
            base == store_anchors(store),
            ders == certs_view(certs@),
            with_certs(base, ders.take(i as int)) == Ok::<Seq<Anchor>, Seq<char>>(
                store_anchors(out),
            ),
        decreases n - i,
    {
        assert(ders.take(i + 1).drop_last() =~= ders.take(i as int));
        assert(ders.take(i + 1).last() == certs@[i as int]@);
        match add_root(&mut out, certs[i].as_slice()) {
            Ok(()) => {},
            Err(e) => {
                let mut text = "hysteria2: failed to add CA cert: ".to_owned();
                text.append(e.as_str());
                proof {
                    lemma_with_certs_error_stands(base, ders, i + 1);
                }
                return Err(text);
            },
        }
        i = i + 1;
    }
    assert(ders.take(n as int) =~= ders);
    Ok(out)
}

/// Whether `anchors` is the list `webpki_roots::TLS_SERVER_ROOTS`.
pub open spec fn is_webpki_list(anchors: Seq<Anchor>) -> bool {
    forall|i: int|
        #[trigger] webpki_root(i) == (if 0 <= i < anchors.len() {
            Some(anchors[i])
        } else {
            None
        })
}

/// The anchors that are trusted without a CA bundle.
pub open spec fn webpki_anchors() -> Seq<Anchor> {
    choose|anchors: Seq<Anchor>| is_webpki_list(anchors)
}

proof fn lemma_webpki_list_unique(a: Seq<Anchor>, b: Seq<Anchor>)
    requires
        is_webpki_list(a),
        is_webpki_list(b),
    ensures
        a == b,
{
    assert(webpki_root(a.len() as int) is None);
    assert(webpki_root(b.len() as int) is None);
    assert forall|i: int| 0 <= i < a.len() implies a[i] == b[i] by {
        assert(webpki_root(i) == Some(a[i]));
    }
    assert(a =~= b);
}

/// The anchors that a session trusts: the built-in ones, then those of the CA
/// bundle, where there is one; or the complaint about the bundle.
pub open spec fn session_anchors(ca_pem: Option<Seq<u8>>) -> Result<Seq<Anchor>, Seq<char>> {
    match ca_pem {
        None => Ok(webpki_anchors()),
        Some(pem) => with_bundle(webpki_anchors(), pem_certificates(pem)),
    }
}

/// The store of the anchors that a session trusts.
pub fn session_roots(ca_pem: Option<&[u8]>) -> (r: Result<RootCertStore, String>)
    ensures
        match session_anchors(
            match ca_pem {
                Some(pem) => Some(pem@),
                None => None,
            },
        ) {
            Ok(anchors) => r is Ok && store_anchors(r->Ok_0) == anchors,
            Err(text) => r is Err && r->Err_0@ == text,
        },
        is_webpki_list(webpki_anchors()),
        ca_pem is None ==> r is Ok && forall|i: int|
            #[trigger] webpki_root(i) == (if 0 <= i < store_anchors(r->Ok_0).len() {
                Some(store_anchors(r->Ok_0)[i])
            } else {
                None
            }),
{
    let store = webpki_store();
    proof {
        assert(is_webpki_list(store_anchors(store)));
        lemma_webpki_list_unique(store_anchors(store), webpki_anchors());
    }
    match ca_pem {
        None => Ok(store),
        Some(pem) => add_bundle(store, pem_certs(pem)),
    }
}

/// The name of the application protocol, `h3`.
pub open spec fn hy2_alpn() -> Seq<u8> {
    seq![0x68u8, 0x33u8]
}

/// What a TLS session is set up with.
#[derive(Debug)]
pub struct TlsSettings {
    /// The trusted certificates.
    pub roots: RootCertStore,
    /// The application protocols that the client offers.
    pub alpn: Vec<Vec<u8>>,
    /// Whether the server's certificate is checked.
    pub verify_server: bool,
}

/// Chooses the settings of a TLS session.
pub fn tls_settings(skip_cert_verify: bool, ca_pem: Option<&[u8]>) -> (r: Result<
    TlsSettings,
    String,
>)
    ensures
        match session_anchors(
            match ca_pem {
                Some(pem) => Some(pem@),
                None => None,
            },
        ) {
            Ok(anchors) => {
                &&& r is Ok
                &&& store_anchors(r->Ok_0.roots) == anchors
                &&& certs_view(r->Ok_0.alpn@) == seq![hy2_alpn()]
                &&& r->Ok_0.verify_server == !skip_cert_verify
            },
            Err(text) => r is Err && r->Err_0@ == text,
        },
        is_webpki_list(webpki_anchors()),
        r matches Ok(settings) ==> settings.alpn@.len() == 1 && settings.alpn@[0]@ == seq![
            0x68u8,
            0x33u8,
        ] && settings.verify_server == !skip_cert_verify,
        ca_pem is None ==> r is Ok && forall|i: int|
            #[trigger] webpki_root(i) == (if 0 <= i < store_anchors(r->Ok_0.roots).len() {
                Some(store_anchors(r->Ok_0.roots)[i])
            } else {
                None
            }),
{
    let roots = match session_roots(ca_pem) {
        Ok(roots) => roots,
        Err(e) => return Err(e),
    };
    let mut name: Vec<u8> = Vec::new();
    name.push(0x68u8);
    name.push(0x33u8);
    assert(name@ =~= hy2_alpn());
    let mut alpn: Vec<Vec<u8>> = Vec::new();
    alpn.push(name);
    assert(certs_view(alpn@) =~= seq![hy2_alpn()]);
    Ok(TlsSettings { roots, alpn, verify_server: !skip_cert_verify })
}

/// Without a CA bundle a session trusts the built-in list.  With one it trusts
/// that list and then one anchor for each certificate, in their order; or it is
/// refused because the bundle is no PEM, because it has no certificate, or
/// because of the first certificate that makes no anchor.
pub proof fn law_session_anchors(pem: Seq<u8>)
    ensures
        session_anchors(None) == Ok::<Seq<Anchor>, Seq<char>>(webpki_anchors()),
        pem_certificates(pem) matches Err(text) ==> session_anchors(Some(pem)) == Err::<
            Seq<Anchor>,
            Seq<char>,
        >("hysteria2: failed to parse CA PEM: "@ + text),
        pem_certificates(pem) matches Ok(ders) ==> ders.len() == 0 ==> session_anchors(Some(pem))
            == Err::<Seq<Anchor>, Seq<char>>(
            "hysteria2: ca/ca-str contained no valid certificates"@,
        ),
        pem_certificates(pem) matches Ok(ders) ==> ders.len() > 0 ==> {
            &&& session_anchors(Some(pem)) is Ok <==> forall|i: int|
                0 <= i < ders.len() ==> trust_anchor(#[trigger] ders[i]) is Ok
            &&& session_anchors(Some(pem)) matches Ok(anchors) ==> {
                &&& anchors.len() == webpki_anchors().len() + ders.len()
                &&& anchors.take(webpki_anchors().len() as int) == webpki_anchors()
                &&& forall|i: int|
                    0 <= i < ders.len() ==> trust_anchor(#[trigger] ders[i]) == Ok::<
                        Anchor,
                        Seq<char>,
                    >(anchors[webpki_anchors().len() + i])
            }
            &&& forall|k: int|
                0 <= k < ders.len() && (trust_anchor(#[trigger] ders[k]) is Err) && (forall|i: int|
                    0 <= i < k ==> trust_anchor(#[trigger] ders[i]) is Ok) ==> session_anchors(
                    Some(pem),
                ) == Err::<Seq<Anchor>, Seq<char>>(
                    "hysteria2: failed to add CA cert: "@ + trust_anchor(ders[k])->Err_0,
                )
        },
{
    if let Ok(ders) = pem_certificates(pem) {
        law_bundle_appends(webpki_anchors(), ders);
        assert forall|k: int|
            0 <= k < ders.len() && (trust_anchor(#[trigger] ders[k]) is Err) && (forall|i: int|
                0 <= i < k ==> trust_anchor(#[trigger] ders[i]) is Ok) implies session_anchors(
            Some(pem),
        ) == Err::<Seq<Anchor>, Seq<char>>(
            "hysteria2: failed to add CA cert: "@ + trust_anchor(ders[k])->Err_0,
        ) by {
            law_bundle_complaint(webpki_anchors(), ders, k);
        }
    }
}

/// The complaint about certificates is about the first one that makes no
/// anchor.
pub proof fn law_bundle_complaint(base: Seq<Anchor>, ders: Seq<Seq<u8>>, k: int)
    requires
        0 <= k < ders.len(),
        trust_anchor(ders[k]) is Err,
        forall|i: int| 0 <= i < k ==> trust_anchor(#[trigger] ders[i]) is Ok,
    ensures
        with_certs(base, ders) == Err::<Seq<Anchor>, Seq<char>>(
            "hysteria2: failed to add CA cert: "@ + trust_anchor(ders[k])->Err_0,
        ),
{
    let before = ders.take(k);
    assert forall|i: int| 0 <= i < before.len() implies trust_anchor(#[trigger] before[i]) is Ok by {
        assert(trust_anchor(ders[i]) is Ok);
    }
    law_bundle_appends(base, before);
    assert(ders.take(k + 1).drop_last() =~= before);
    assert(ders.take(k + 1).last() == ders[k]);
    lemma_with_certs_error_stands(base, ders, k + 1);
}

/// A bundle that is no PEM, or has no certificate, is refused for that; another
/// one for its certificates alone.
pub proof fn law_bundle_refusals(base: Seq<Anchor>, parsed: Result<Seq<Seq<u8>>, Seq<char>>)
    ensures
        parsed matches Err(text) ==> with_bundle(base, parsed) == Err::<Seq<Anchor>, Seq<char>>(
            "hysteria2: failed to parse CA PEM: "@ + text,
        ),
        parsed matches Ok(ders) ==> ders.len() == 0 ==> with_bundle(base, parsed) == Err::<
            Seq<Anchor>,
            Seq<char>,
        >("hysteria2: ca/ca-str contained no valid certificates"@),
        parsed matches Ok(ders) ==> ders.len() > 0 ==> with_bundle(base, parsed) == with_certs(
            base,
            ders,
        ),
{
}

/// The value of parsed PEM is that of its certificates, one by one, or that of
/// its complaint.
pub proof fn law_pem_view(certs: Vec<Vec<u8>>, complaint: String)
    ensures
        pem_view(Ok(certs)) matches Ok(ders) && ders.len() == certs@.len() && forall|i: int|
            0 <= i < certs@.len() ==> #[trigger] ders[i] == certs@[i]@,
        pem_view(Err(complaint)) == Err::<Seq<Seq<u8>>, Seq<char>>(complaint@),
{
}

/// Certificates are accepted together or not at all, and what was trusted
/// before stays trusted: the anchors of a bundle follow the others, one for
/// each certificate and in the order of the certificates.
pub proof fn law_bundle_appends(base: Seq<Anchor>, ders: Seq<Seq<u8>>)
    ensures
        with_certs(base, ders) is Ok <==> forall|i: int|
            0 <= i < ders.len() ==> trust_anchor(#[trigger] ders[i]) is Ok,
        with_certs(base, ders) matches Ok(anchors) ==> {
            &&& anchors.len() == base.len() + ders.len()
            &&& anchors.take(base.len() as int) == base
            &&& forall|i: int|
                0 <= i < ders.len() ==> trust_anchor(#[trigger] ders[i]) == Ok::<Anchor, Seq<char>>(
                    anchors[base.len() + i],
                )
        },
    decreases ders.len(),
{
    if ders.len() == 0 {
        assert(base.take(base.len() as int) =~= base);
    } else {
        let init = ders.drop_last();
        law_bundle_appends(base, init);
        assert forall|i: int| 0 <= i < init.len() implies init[i] == #[trigger] ders[i] by {}
        if with_certs(base, ders) is Ok {
            let before = with_certs(base, init)->Ok_0;
            let anchors = with_certs(base, ders)->Ok_0;
            assert(anchors.take(base.len() as int) =~= before.take(base.len() as int));
            assert forall|i: int| 0 <= i < ders.len() implies trust_anchor(#[trigger] ders[i])
                == Ok::<Anchor, Seq<char>>(anchors[base.len() + i]) by {
                if i < init.len() {
                    assert(trust_anchor(init[i]) is Ok);
                }
            }
        } else if with_certs(base, init) is Err {
            let k = choose|k: int|
                0 <= k < init.len() && trust_anchor(#[trigger] init[k]) is Err;
            assert(trust_anchor(ders[k]) is Err);
        } else {
            assert(trust_anchor(ders[ders.len() - 1]) is Err);
        }
    }
}

} // verus!
