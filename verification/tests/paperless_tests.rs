use paperless_index::correspondents::Correspondent;
use paperless_index::paperless::{
    correspondent_names, correspondents_url, documents_url, force_https, Pager,
};

fn correspondent(id: u64, name: &str) -> Correspondent {
    Correspondent { id, slug: name.to_lowercase(), name: name.to_string() }
}

#[test]
fn correspondents_url_appends_path() {
    assert_eq!(
        correspondents_url("https://paperless.example.com/api"),
        "https://paperless.example.com/api/correspondents/"
    );
}

#[test]
fn documents_url_holds_asn_range() {
    assert_eq!(
        documents_url("https://paperless.example.com/api", "1", "250"),
        "https://paperless.example.com/api/documents/?query=asn:[1 TO 250]"
    );
}

#[test]
fn force_https_rewrites_http() {
    assert_eq!(force_https("http://p.example/api/documents/?page=2"), "https://p.example/api/documents/?page=2");
    assert_eq!(force_https("http://"), "https://");
}

#[test]
fn force_https_keeps_other_addresses() {
    assert_eq!(force_https("https://p.example/"), "https://p.example/");
    assert_eq!(force_https("ftp://p.example/"), "ftp://p.example/");
    assert_eq!(force_https("http:/p"), "http:/p");
    assert_eq!(force_https("xhttp://p"), "xhttp://p");
    assert_eq!(force_https(""), "");
}

#[test]
fn force_https_twice_is_once() {
    for url in ["http://a/http://b", "https://a", "http://", "plain"] {
        let once = force_https(url);
        assert_eq!(force_https(&once), once);
    }
}

#[test]
fn pager_collects_pages_in_order() {
    let mut pager: Pager<u64> = Pager::new("http://p.example/api/documents/".to_string());
    assert_eq!(pager.next_request(), Some("https://p.example/api/documents/".to_string()));
    pager.receive(Some("http://p.example/api/documents/?page=2".to_string()), vec![1, 2]);
    assert_eq!(pager.next_request(), Some("https://p.example/api/documents/?page=2".to_string()));
    pager.receive(None, vec![3]);
    assert_eq!(pager.next_request(), None);
    assert_eq!(pager.into_items(), vec![1, 2, 3]);
}

#[test]
fn correspondent_names_maps_ids() {
    let names = correspondent_names(vec![correspondent(1, "Bank"), correspondent(2, "Insurer")]);
    assert_eq!(names.len(), 2);
    assert_eq!(names[&1], "Bank");
    assert_eq!(names[&2], "Insurer");
}

#[test]
fn correspondent_names_later_name_wins() {
    let names = correspondent_names(vec![correspondent(1, "Old"), correspondent(1, "New")]);
    assert_eq!(names.len(), 1);
    assert_eq!(names[&1], "New");
}

#[test]
fn correspondent_names_of_nothing() {
    assert!(correspondent_names(Vec::new()).is_empty());
}
