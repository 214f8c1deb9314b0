use yellow_tv_lib::catalog::{self, Kind};
use yellow_tv_lib::proxy::check_stream_url;
use yellow_tv_lib::{db, ids, import, library, meta, settings, subtitles};

#[test]
fn kind_aceita_os_nomes_da_rota_e_do_banco() {
    assert_eq!(Kind::parse("filmes"), Ok(Kind::Movie));
    assert_eq!(Kind::parse("movie"), Ok(Kind::Movie));
    assert_eq!(Kind::parse("series"), Ok(Kind::Series));
    assert_eq!(Kind::parse("canais"), Ok(Kind::Channel));
    for kind in [Kind::Movie, Kind::Series, Kind::Channel] {
        assert_eq!(Kind::parse(kind.as_str()), Ok(kind));
    }
    assert_eq!(Kind::parse("docs"), Err("tipo de catálogo inválido: docs".to_owned()));
}

#[test]
fn tamanho_de_pagina_por_tipo() {
    assert_eq!(catalog::page_size(Kind::Movie), catalog::PAGE_SIZE);
    assert_eq!(catalog::page_size(Kind::Series), 60);
    assert_eq!(catalog::page_size(Kind::Channel), catalog::CHANNEL_PAGE_SIZE);
    assert!(catalog::CHANNEL_PAGE_SIZE > catalog::PAGE_SIZE);
}

#[test]
fn busca_vira_prefixos_entre_aspas() {
    assert_eq!(catalog::fts_query("Caçador de Androides").as_deref(), Some("\"cacador\"* AND \"de\"* AND \"androides\"*"));
    assert_eq!(catalog::fts_query("\"duna* OR").as_deref(), Some("\"duna\"* AND \"or\"*"));
    assert_eq!(catalog::fts_query("  4K  "), None);
}

#[test]
fn filtro_da_pagina() {
    let filter = catalog::page_filter(Kind::Movie, "duna", Some("Filmes"), 2, true);
    assert_eq!(
        filter.where_clause,
        "i.kind = ? AND i.group_name = ? AND i.rowid IN (SELECT rowid FROM items_fts WHERE items_fts MATCH ?) AND COALESCE(p.completed, 0) = 0"
    );
    assert_eq!(filter.binds, vec!["movie".to_owned(), "Filmes".to_owned(), "\"duna\"*".to_owned()]);
    assert_eq!((filter.page, filter.limit, filter.offset), (2, 60, 120));

    let vazio = catalog::page_filter(Kind::Channel, "", Some(""), -3, false);
    assert_eq!(vazio.where_clause, "i.kind = ?");
    assert_eq!(vazio.binds, vec!["channel".to_owned()]);
    assert_eq!((vazio.page, vazio.limit, vazio.offset), (0, 10000, 0));
}

#[test]
fn ordem_pedida_e_reimposta() {
    let ids = vec!["c".to_owned(), "x".to_owned(), "a".to_owned(), "b".to_owned()];
    let found = vec!["a".to_owned(), "b".to_owned(), "c".to_owned()];
    assert_eq!(catalog::order_by_ids(&ids, &found), vec![2, 0, 1]);
}

#[test]
fn repeticao_seguida_de_id_some() {
    let ids: Vec<String> = ["a", "a", "b", "a", "a"].iter().map(|s| s.to_string()).collect();
    assert_eq!(catalog::dedup_positions(&ids), vec![0, 2, 3]);
}

#[test]
fn chave_de_linha_de_genero() {
    assert_eq!(catalog::row_key(Kind::Series, "Series | Drama"), "group:series:Series | Drama");
}

#[test]
fn mensagens_de_erro_do_banco() {
    assert_eq!(catalog::stringify("x"), "consulta ao catálogo falhou: x");
    assert_eq!(import::stringify("y"), "banco recusou a operação: y");
    assert_eq!(library::stringify("z"), "banco recusou a operação: z");
}

#[test]
fn dono_de_progresso_valido() {
    assert!(library::check_kind("item").is_ok());
    assert!(library::check_kind("episode").is_ok());
    assert_eq!(library::check_kind("movie"), Err("owner_kind inválido: movie".to_owned()));
    assert!(library::favorite_after_toggle(0));
    assert!(!library::favorite_after_toggle(1));
}

#[test]
fn fonte_valida_url_e_tipo() {
    assert_eq!(import::check_source("  http://a  ", "url"), Ok("http://a".to_owned()));
    assert_eq!(import::check_source("/tmp/b.m3u", "file"), Ok("/tmp/b.m3u".to_owned()));
    assert_eq!(import::check_source("   ", "url"), Err("informe a URL ou o arquivo da lista".to_owned()));
    assert_eq!(import::check_source("http://a", "ftp"), Err("tipo de fonte inválido: ftp".to_owned()));
}

#[test]
fn marcos_de_progresso_da_importacao() {
    assert_eq!(import::progress_marks(1200), vec![500, 1000, 1200]);
    assert_eq!(import::progress_marks(1000), vec![500, 1000]);
    assert_eq!(import::progress_marks(3), vec![3]);
}

#[test]
fn rotulo_padrao_da_lista() {
    assert_eq!(import::default_label("http://host.com/get.php?u=1"), "host.com");
    assert_eq!(import::default_label("https://user:pw@srv:8080/get.php"), "get.php");
    assert_eq!(import::default_label("/home/eu/lista.m3u"), "lista.m3u");
    assert_eq!(import::default_label("C:\\Users\\eu\\canais.m3u"), "canais.m3u");
    assert_eq!(import::default_label("/home/eu/listas/"), "listas");
    assert_eq!(import::default_label("lista.m3u"), "lista.m3u");
    assert_eq!(import::default_label("///"), "Minha lista");
    assert_eq!(import::default_label("http://"), "Minha lista");
    assert_eq!(import::source_label(Some("Minha TV"), "/x/y.m3u"), "Minha TV");
    assert_eq!(import::source_label(Some("   "), "/x/y.m3u"), "y.m3u");
    assert_eq!(import::source_label(None, "http://host/a"), "host");
}

#[test]
fn linhas_gravadas_por_entrada() {
    let (entries, _) = yellow_tv_lib::m3u::parse_all(
        "#EXTINF:-1 tvg-chno=\"5\",Globo\nhttp://g\n#EXTINF:-1,Fargo S01E02 4K\nhttp://f\n",
    );
    let canal = import::rows_for(&entries[0]);
    assert_eq!(canal.item.id, entries[0].item_id());
    assert_eq!(canal.item.kind, "channel");
    assert!(canal.episode.is_none());
    assert_eq!(canal.stream.owner_kind, "item");
    assert_eq!(canal.stream.owner_id, canal.item.id);
    assert_eq!(canal.stream.channel_number, Some(5));

    let episodio = import::rows_for(&entries[1]);
    let ep = episodio.episode.as_ref().unwrap();
    assert_eq!(ep.series_id, episodio.item.id);
    assert_eq!((ep.season, ep.episode), (Some(1), Some(2)));
    assert_eq!(episodio.stream.owner_kind, "episode");
    assert_eq!(episodio.stream.owner_id, ep.id);
    assert_eq!(episodio.stream.quality.as_deref(), Some("4K"));
    assert_eq!(episodio.stream.url, "http://f");
}

#[test]
fn plano_de_migracao() {
    assert_eq!(db::migration_plan(0), Ok((true, true)));
    assert_eq!(db::migration_plan(1), Ok((false, true)));
    assert_eq!(db::migration_plan(db::SCHEMA_VERSION), Ok((false, false)));
    assert_eq!(
        db::migration_plan(7),
        Err("banco na versão 7, mais nova que esta build (2)".to_owned())
    );
    assert!(db::now() > 1_600_000_000);
}

#[test]
fn escolha_da_chave_do_tmdb() {
    assert_eq!(settings::choose_tmdb_key(Some(" abc "), Some("env")).as_deref(), Some("abc"));
    assert_eq!(settings::choose_tmdb_key(Some("   "), Some(" env ")).as_deref(), Some("env"));
    assert_eq!(settings::choose_tmdb_key(None, Some("  ")), None);
    assert_eq!(settings::TMDB_KEY, "tmdb_api_key");
}

#[test]
fn partes_do_tmdb_que_nao_falam_com_a_rede() {
    assert_eq!(meta::tmdb_kind("series"), "tv");
    assert_eq!(meta::tmdb_kind("movie"), "movie");
    assert_eq!(meta::year_param("movie"), "year");
    assert_eq!(meta::year_param("tv"), "first_air_date_year");
    assert_eq!(meta::image(Some("/p.jpg"), "w500").as_deref(), Some("https://image.tmdb.org/t/p/w500/p.jpg"));
    assert_eq!(meta::image(Some(""), "w500"), None);
    assert_eq!(meta::image(None, "w500"), None);
    assert_eq!(meta::clean_title("Duna [L] (2021) 4K Dublado Parte Dois"), "Duna Parte Dois");
    assert!(meta::key_goes_in_header("eyJhbGciOi"));
    assert!(!meta::key_goes_in_header("abc123"));
    assert_eq!(meta::release_year("2021-10-22"), Some(2021));
    assert_eq!(meta::release_year(""), None);
    assert_eq!(meta::release_year("20é1"), None);
    assert_eq!(meta::imdb_url("tt1160419"), "https://www.imdb.com/title/tt1160419/");
    assert_eq!(
        meta::cache_id("movie", "Duna 4K", Some(2021)),
        ids::item_id("movie", "duna", Some(2021))
    );
}

#[test]
fn url_do_proxy() {
    assert_eq!(yellow_tv_lib::urlencoding("http://a b/ç?x=1"), "http%3A%2F%2Fa%20b%2F%C3%A7%3Fx%3D1");
    assert_eq!(yellow_tv_lib::urlencoding("A-z_0.~"), "A-z_0.~");
    assert_eq!(
        yellow_tv_lib::stream_url(8080, "http://h/x"),
        "http://127.0.0.1:8080/stream?url=http%3A%2F%2Fh%2Fx"
    );
}

#[test]
fn legenda_pronta_para_o_track() {
    let srt = "1\n00:00:01,000 --> 00:00:02,000\nOi\n".to_owned();
    assert_eq!(subtitles::track_text(srt.clone(), Some("VTT")), srt);
    assert_eq!(
        subtitles::track_text(srt, Some("srt")),
        "WEBVTT\n\n00:00:01.000 --> 00:00:02.000\nOi\n"
    );
}

#[test]
fn carimbo_curto_e_carimbo_com_ponto() {
    let vtt = subtitles::srt_to_vtt("00:01,250 --> 00:02.500\r\nfala\r\n");
    assert_eq!(vtt, "WEBVTT\n\n00:01.250 --> 00:02.500\nfala\n");
    let torto = subtitles::srt_to_vtt("00:01,25 --> 00:02,500\n");
    assert_eq!(torto, "WEBVTT\n\n00:01,25 --&gt; 00:02,500\n");
}

#[test]
fn decode_devolve_utf8_inteiro() {
    let text = "Legenda: ção, 日本, 🙂";
    assert_eq!(subtitles::decode(text.as_bytes()), text);
    assert_eq!(subtitles::decode(&[0xFF, b'a']), "\u{ff}a");
}

#[test]
fn id_e_hexadecimal_minusculo() {
    let id = ids::episode_id(&ids::item_id("series", "fargo", None), 1, 1);
    assert_eq!(id.len(), 32);
    assert!(id.chars().all(|c| c.is_ascii_digit() || ('a'..='f').contains(&c)));
    assert_ne!(ids::item_id("movie", "duna", Some(-1)), ids::item_id("movie", "duna", Some(1)));
    assert_eq!(ids::item_id("movie", "duna", None), ids::item_id("movie", "duna", Some(0)));
}

#[test]
fn normalize_descarta_chaves_e_numero_solto_no_fim() {
    assert_eq!(ids::normalize("Duna {Extra} Parte 2"), "duna parte");
    assert_eq!(ids::normalize("Duna 100"), "duna 100");
    assert_eq!(ids::normalize("Duna ) (2021"), "duna");
}

fn s(text: &str) -> Option<String> {
    Some(text.to_owned())
}

fn empty_details() -> meta::Details {
    meta::Details {
        overview: None,
        tagline: None,
        poster_path: None,
        backdrop_path: None,
        vote_count: None,
        release_date: None,
        first_air_date: None,
        imdb_id: None,
        external_imdb_id: None,
        runtime: None,
        first_episode_run_time: None,
        genres: None,
        cast: None,
    }
}

#[test]
fn busca_no_tmdb() {
    assert_eq!(meta::search_path("tv"), "/search/tv");
    assert_eq!(meta::details_path("movie", 438631), "/movie/438631");
    assert_eq!(
        meta::search_params("Duna [L] (2021) 4K", "movie", Some(2021)),
        vec![
            ("query".to_owned(), "Duna".to_owned()),
            ("include_adult".to_owned(), "true".to_owned()),
            ("year".to_owned(), "2021".to_owned()),
        ]
    );
    assert_eq!(
        meta::search_params("Dark", "tv", Some(2017))[2],
        ("first_air_date_year".to_owned(), "2017".to_owned())
    );
    assert_eq!(meta::search_params("Dark", "tv", None).len(), 2);
}

#[test]
fn ficha_de_filme() {
    let mut d = empty_details();
    d.overview = s("Paul Atreides...");
    d.poster_path = s("/p.jpg");
    d.backdrop_path = s("");
    d.vote_count = Some(1200);
    d.release_date = s("2021-09-15");
    d.first_air_date = s("1999-01-01");
    d.imdb_id = s("tt1160419");
    d.runtime = Some(155);
    d.first_episode_run_time = Some(50);
    d.genres = Some(vec![s("Ficção científica"), None, s("Aventura")]);
    d.cast = Some(
        (0..15)
            .map(|i| meta::CastEntry {
                name: s(&format!("Ator {i}")),
                character: if i == 0 { None } else { s("Papel") },
                profile_path: if i == 1 { s("/a.jpg") } else { None },
            })
            .collect(),
    );
    let sheet = meta::sheet(&d);
    assert_eq!(sheet.overview, "Paul Atreides...");
    assert_eq!(sheet.tagline, "");
    assert_eq!(sheet.poster.as_deref(), Some("https://image.tmdb.org/t/p/w500/p.jpg"));
    assert_eq!(sheet.backdrop, None);
    assert_eq!(sheet.votes, Some(1200));
    assert_eq!(sheet.year, Some(2021));
    assert_eq!(sheet.runtime, Some(155));
    assert_eq!(sheet.genres, vec!["Ficção científica".to_owned(), "Aventura".to_owned()]);
    assert_eq!(sheet.cast.len(), meta::CAST_LIMIT);
    assert_eq!(sheet.cast[0].name, "Ator 0");
    assert_eq!(sheet.cast[0].character, "");
    assert_eq!(sheet.cast[1].photo.as_deref(), Some("https://image.tmdb.org/t/p/w185/a.jpg"));
    assert_eq!(sheet.imdb_url.as_deref(), Some("https://www.imdb.com/title/tt1160419/"));
}

#[test]
fn ficha_de_serie_usa_os_campos_de_serie() {
    let mut d = empty_details();
    d.first_air_date = s("2017-12-01");
    d.external_imdb_id = s("tt5753856");
    d.first_episode_run_time = Some(53);
    let sheet = meta::sheet(&d);
    assert_eq!(sheet.year, Some(2017));
    assert_eq!(sheet.runtime, Some(53));
    assert_eq!(sheet.imdb_url.as_deref(), Some("https://www.imdb.com/title/tt5753856/"));
    assert!(sheet.genres.is_empty());
    assert!(sheet.cast.is_empty());
    // id vazio no topo não cai para `external_ids`
    d.imdb_id = s("");
    assert_eq!(meta::sheet(&d).imdb_url, None);
    // data vazia de filme não cai para a da série
    d.release_date = s("");
    assert_eq!(meta::sheet(&d).year, None);
}

#[test]
fn progresso_gravado_pelas_regras() {
    // clique acidental sem histórico: nada
    assert_eq!(library::progress_decision(true, false, None), None);
    // acima do mínimo cria, não concluído
    assert_eq!(library::progress_decision(false, false, None), Some(false));
    // quem já tem histórico pode voltar ao começo
    assert_eq!(library::progress_decision(true, false, Some(false)), Some(false));
    // créditos marcam como concluído
    assert_eq!(library::progress_decision(false, true, None), Some(true));
    // concluído continua concluído
    assert_eq!(library::progress_decision(true, false, Some(true)), Some(true));
    assert_eq!(library::progress_decision(false, false, Some(true)), Some(true));
}

#[test]
fn proxy_so_repassa_http_e_https() {
    assert!(check_stream_url("http://srv/live/1.ts").is_ok());
    assert!(check_stream_url("https://srv/filme.mp4").is_ok());
    assert_eq!(check_stream_url("file:///etc/passwd"), Err("somente http e https".to_owned()));
    assert_eq!(check_stream_url("HTTP://srv"), Err("somente http e https".to_owned()));
    assert_eq!(check_stream_url("http:/"), Err("somente http e https".to_owned()));
}

#[test]
fn trecho_entre_parenteses_nao_conta_no_titulo() {
    assert_eq!(ids::normalize("Duna (2021)"), ids::normalize("Duna"));
    assert_eq!(ids::normalize("O [L] Poderoso Chefão"), ids::normalize("O  Poderoso Chefão"));
    assert_eq!(ids::normalize("{x}Matrix"), ids::normalize("Matrix"));
    assert_eq!(
        ids::item_id("movie", &ids::normalize("Duna [L]"), Some(2021)),
        ids::item_id("movie", &ids::normalize("Duna"), Some(2021))
    );
    // sem ano e ano zero entram iguais na chave
    assert_eq!(ids::item_id("movie", "duna", None), ids::item_id("movie", "duna", Some(0)));
}

fn percent_decode(text: &str) -> Vec<u8> {
    let bytes = text.as_bytes();
    let mut out = Vec::new();
    let mut i = 0;
    while i < bytes.len() {
        if bytes[i] == b'%' && i + 2 < bytes.len() {
            let hex = std::str::from_utf8(&bytes[i + 1..i + 3]).unwrap();
            out.push(u8::from_str_radix(hex, 16).unwrap());
            i += 3;
        } else {
            out.push(bytes[i]);
            i += 1;
        }
    }
    out
}

#[test]
fn url_do_proxy_volta_inteira() {
    for url in ["http://srv:8080/live/u/p/1.ts?a=1&b=2", "https://x/Ação e reação.mp4", "%41 100%"] {
        let encoded = yellow_tv_lib::urlencoding(url);
        assert_eq!(percent_decode(&encoded), url.as_bytes().to_vec());
        let full = yellow_tv_lib::stream_url(4321, url);
        assert_eq!(full, format!("http://127.0.0.1:4321/stream?url={encoded}"));
    }
}

#[test]
fn carimbo_do_relogio() {
    assert_eq!(db::stamp(Some(1_700_000_000)), 1_700_000_000);
    assert_eq!(db::stamp(None), 0);
    assert!(db::now() > 1_600_000_000);
}

#[test]
fn stream_guarda_a_versao_do_audio() {
    let (entries, _) = yellow_tv_lib::m3u::parse_all(
        "#EXTINF:-1 group-title=\"Filmes | Acao\",Duna (2021)\nhttp://host/5\n\
#EXTINF:-1 group-title=\"Filmes | Legendados\",Duna [L] (2021)\nhttp://host/6\n",
    );
    let (a, b) = (import::rows_for(&entries[0]), import::rows_for(&entries[1]));
    assert_eq!(a.item.id, b.item.id, "um filme só");
    assert_eq!(a.stream.variant, None);
    assert_eq!(b.stream.variant.as_deref(), Some("Legendado"));
}

fn v(ids: &[&str]) -> Vec<String> {
    ids.iter().map(|id| id.to_string()).collect()
}

#[test]
fn linhas_do_inicio() {
    let groups = vec![
        (Kind::Movie, "Drama".to_owned(), v(&["m1", "m2"])),
        (Kind::Movie, "Vazio".to_owned(), v(&[])),
        (Kind::Series, "Netflix".to_owned(), v(&["s1"])),
    ];
    let movies: Vec<String> = (0..15).map(|i| format!("m{i}")).collect();
    let series: Vec<String> = (0..10).map(|i| format!("s{i}")).collect();
    let rows = catalog::board_rows(&v(&["a", "b", "b", "x", "a"]), &v(&["b", "a"]), &movies, &series, &groups);
    let keys: Vec<&str> = rows.iter().map(|row| row.key.as_str()).collect();
    assert_eq!(keys, vec!["continue", "recent", "group:movie:Drama", "group:series:Netflix"]);
    assert_eq!(rows[0].title, "Continuar assistindo");
    assert_eq!(rows[0].kind, "mixed");
    assert_eq!(rows[0].items, v(&["a", "b", "a"]));
    assert_eq!(rows[1].title, "Adicionados recentemente");
    assert_eq!(rows[1].items.len(), catalog::ROW_LIMIT);
    assert_eq!(rows[1].items[14], "m14");
    assert_eq!(rows[1].items[15], "s0");
    assert_eq!(rows[2].title, "Drama");
    assert_eq!(rows[2].kind, "movie");
    assert_eq!(rows[3].items, v(&["s1"]));

    // sem histórico e sem títulos: nenhuma linha
    assert!(catalog::board_rows(&v(&[]), &v(&[]), &v(&[]), &v(&[]), &vec![]).is_empty());
    // histórico cujos títulos sumiram: a linha fica, vazia
    let rows = catalog::board_rows(&v(&["z"]), &v(&[]), &v(&[]), &v(&[]), &vec![]);
    assert_eq!(rows.len(), 1);
    assert!(rows[0].items.is_empty());
}

#[test]
fn marcos_saem_durante_o_parse() {
    for total in [1usize, 499, 500, 501, 1000, 1200] {
        let mut marks: Vec<usize> = (1..=total).filter_map(import::mark_on_entry).collect();
        marks.push(total);
        assert_eq!(marks, import::progress_marks(total), "total {total}");
    }
    assert_eq!(import::mark_on_entry(501), Some(500));
    assert_eq!(import::mark_on_entry(500), None);
}

#[test]
fn fatos_de_char_usados_nos_contratos() {
    let white: Vec<u32> = (0x9..=0xD)
        .chain([0x20, 0x85, 0xA0, 0x1680])
        .chain(0x2000..=0x200A)
        .chain([0x2028, 0x2029, 0x202F, 0x205F, 0x3000])
        .collect();
    assert_eq!(white.len(), 25);
    for code in 0..=0x10FFFFu32 {
        if let Some(c) = char::from_u32(code) {
            assert_eq!(c.is_whitespace(), white.contains(&code), "{code:x}");
        }
    }
    for code in 0..128u32 {
        let c = char::from_u32(code).unwrap();
        assert_eq!(c.is_alphanumeric(), c.is_ascii_alphanumeric(), "{code:x}");
        assert_eq!(c.is_numeric(), c.is_ascii_digit(), "{code:x}");
        assert_eq!(c.to_string().to_lowercase(), c.to_ascii_lowercase().to_string());
        assert_eq!(c.to_string().to_uppercase(), c.to_ascii_uppercase().to_string());
    }
    assert_eq!(yellow_tv_lib::meta::clean_title("DUNA Parte HD"), "DUNA Parte");
}

#[test]
fn sem_chave_e_sem_resultado() {
    assert_eq!(meta::require_key(None), Err("chave do TMDB não configurada".to_owned()));
    assert_eq!(meta::require_key(Some("abc".to_owned())), Ok("abc".to_owned()));
    assert_eq!(meta::first_hit(None), None);
    assert_eq!(meta::first_hit(Some(None)), Some(0));
    assert_eq!(meta::first_hit(Some(Some(438631))), Some(438631));
}

#[test]
fn fonte_so_some_se_era_nova() {
    assert!(import::remove_after_failure(true, true));
    assert!(!import::remove_after_failure(true, false));
    assert!(!import::remove_after_failure(false, true));
}

#[test]
fn normalizar_de_novo_nao_muda() {
    for title in ["  O   Caçador  ", "Duna [L] (2021) DUBLADO", "Duna ALT 2", "Fargo S01E02 4K", "", "HD 4K", "Ação!"] {
        let once = ids::normalize(title);
        assert_eq!(ids::normalize(&once), once, "{title}");
    }
}

#[test]
fn marca_de_qualidade_no_fim_nao_conta() {
    for mark in ["4K", "FHD", "h265", "DUBLADO", "Leg", "1080p"] {
        let title = format!("Blade Runner {mark}");
        assert_eq!(ids::normalize(&title), ids::normalize("Blade Runner"), "{mark}");
        assert_eq!(
            ids::item_id("movie", &ids::normalize(&title), Some(1982)),
            ids::item_id("movie", &ids::normalize("Blade Runner"), Some(1982))
        );
    }
}
