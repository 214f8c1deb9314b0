use yellow_tv_lib::meta;

#[test]
fn cache_id_e_estavel_e_sensivel_ao_kind() {
    assert_eq!(
        meta::cache_id("movie", "Duna", Some(2021)),
        meta::cache_id("movie", "duna 4K", Some(2021)),
        "o cache segue o título normalizado, não o texto cru"
    );
    assert_ne!(
        meta::cache_id("movie", "Fargo", None),
        meta::cache_id("tv", "Fargo", None)
    );
}
