use yellow_tv_lib::ids;
use yellow_tv_lib::import::{check_outcome, Tally};
use yellow_tv_lib::m3u::{self, parse_all, Entry, EntryKind, Parser};

fn one(text: &str) -> Entry {
    let (entries, outcome) = m3u::parse_all(text);
    assert_eq!(outcome.parsed, 1, "{text}");
    entries.into_iter().next().unwrap()
}

#[test]
fn entradas_contadas_batem_com_parsed() {
    let text = "#EXTM3U\n#EXTINF:-1,A\nhttp://a\nhttp://orfa\n#EXTINF:-1,B\n#EXTINF:-1,C\nhttp://c\n#EXTINF:-1,D\n";
    let (entries, outcome) = m3u::parse_all(text);
    assert_eq!(entries.len(), outcome.parsed);
    assert_eq!(outcome.parsed, 2);
    // URL órfã, B sem URL e D sem URL no fim.
    assert_eq!(outcome.discarded, 3);
}

#[test]
fn linha_ilegivel_conta_como_descarte() {
    let lines = vec![
        Some("#EXTINF:-1,Duna (2021)".to_owned()),
        None,
        Some("http://h/d".to_owned()),
    ];
    let (entries, outcome) = m3u::parse_each(&lines);
    assert_eq!(entries.len(), 1);
    assert_eq!(outcome.discarded, 1);
    assert_eq!(entries[0].title, "Duna");
}

#[test]
fn extinf_quebrado_engole_a_url_seguinte_sem_descarte_extra() {
    let mut parser = Parser::new();
    assert!(parser.feed(Some("#EXTINF:-1 tvg-id=\"x\"")).is_none());
    assert!(parser.feed(Some("http://h/x")).is_none());
    let outcome = parser.finish();
    assert_eq!(outcome.parsed, 0);
    assert_eq!(outcome.discarded, 1);
}

#[test]
fn crlf_e_espacos_nao_atrapalham() {
    let entry = one("#EXTINF:-1 group-title=\"Filmes\",Duna (2021)\r\n  http://h/d  \r\n");
    assert_eq!(entry.url, "http://h/d");
    assert_eq!(entry.year, Some(2021));
}

#[test]
fn virgula_entre_aspas_nao_separa_o_nome() {
    let entry = one("#EXTINF:-1 group-title=\"Filmes, Drama\",Duna\nhttp://h/d\n");
    assert_eq!(entry.group_name.as_deref(), Some("Filmes, Drama"));
    assert_eq!(entry.title, "Duna");
}

#[test]
fn nome_vazio_e_descartado() {
    let (entries, outcome) = m3u::parse_all("#EXTINF:-1,   \nhttp://h/x\n");
    assert!(entries.is_empty());
    assert_eq!(outcome.discarded, 1);
}

#[test]
fn qualidade_em_minusculas_sai_em_maiusculas_sem_repeticao() {
    let entry = one("#EXTINF:-1,Duna hd HD 4k\nhttp://h/d\n");
    assert_eq!(entry.quality.as_deref(), Some("HD 4K"));
    assert_eq!(entry.title, "Duna");
}

#[test]
fn variante_pelo_nome_e_pelo_grupo() {
    let dublado = one("#EXTINF:-1,Duna Dublado\nhttp://h/d\n");
    assert_eq!(dublado.variant.as_deref(), Some("Dublado"));
    let legendado = one("#EXTINF:-1,Duna [L]\nhttp://h/d\n");
    assert_eq!(legendado.variant.as_deref(), Some("Legendado"));
    let pelo_grupo = one("#EXTINF:-1 group-title=\"Series | Legendadas\",Origem S01 E01\nhttp://h/o\n");
    assert_eq!(pelo_grupo.variant.as_deref(), Some("Legendado"));
    let nacional = one("#EXTINF:-1 group-title=\"Filmes | Nacionais\",Cidade de Deus\nhttp://h/c\n");
    assert_eq!(nacional.variant, None);
}

#[test]
fn serie_com_separador_e_ano_no_titulo() {
    let entry = one("#EXTINF:-1,Fargo (2014) S01-E03\nhttp://h/f\n");
    assert!(matches!(entry.kind, EntryKind::Series));
    assert_eq!(entry.title, "Fargo");
    assert_eq!((entry.season, entry.episode), (Some(1), Some(3)));
    assert_eq!(entry.year, None);
}

#[test]
fn s_no_meio_de_palavra_nao_e_episodio() {
    let entry = one("#EXTINF:-1,Os 8 Escolhidos\nhttp://h/o\n");
    assert!(matches!(entry.kind, EntryKind::Movie));
}

#[test]
fn numero_absurdo_nao_vira_episodio() {
    let entry = one("#EXTINF:-1,Algo S99999999999999999999E01\nhttp://h/a\n");
    assert!(matches!(entry.kind, EntryKind::Movie));
}

#[test]
fn canal_pela_palavra_inteira_e_por_ao_vivo() {
    let directv = one("#EXTINF:-1 group-title=\"Series | DirecTV\",Algo\nhttp://h/a\n");
    assert!(matches!(directv.kind, EntryKind::Movie));
    let ao_vivo = one("#EXTINF:-1 group-title=\"Esportes Ao Vivo\",Jogo\nhttp://h/j\n");
    assert!(matches!(ao_vivo.kind, EntryKind::Channel));
    assert_eq!(ao_vivo.channel_number, None);
}

#[test]
fn chave_de_atributo_sem_duracao_na_frente() {
    let entry = one("#EXTINF:-1 TVG-LOGO=\"http://p/x.png\",X\nhttp://h/x\n");
    assert_eq!(entry.logo.as_deref(), Some("http://p/x.png"));
}

#[test]
fn ano_fora_da_faixa_fica_no_titulo() {
    let entry = one("#EXTINF:-1,Blade Runner 2049\nhttp://h/b\n");
    assert_eq!(entry.year, Some(2049));
    let fora = one("#EXTINF:-1,Odisseia 3001\nhttp://h/o\n");
    assert_eq!(fora.year, None);
    assert_eq!(fora.title, "Odisseia 3001");
}

#[test]
fn ids_da_entrada_seguem_o_titulo_e_nao_a_url() {
    let a = one("#EXTINF:-1,Fargo S01E02\nhttp://a/f\n");
    let b = one("#EXTINF:-1 group-title=\"Outra\",Fargo S01E02 FHD\nhttp://b/f\n");
    assert_eq!(a.item_id(), b.item_id());
    assert_eq!(a.episode_id(), b.episode_id());
    assert!(a.episode_id().is_some());
    let movie = one("#EXTINF:-1,Duna\nhttp://h/d\n");
    assert!(movie.episode_id().is_none());
    assert_eq!(movie.item_id().len(), 32);
}

#[test]
fn entry_kind_as_str() {
    assert_eq!(EntryKind::Movie.as_str(), "movie");
    assert_eq!(EntryKind::Series.as_str(), "series");
    assert_eq!(EntryKind::Channel.as_str(), "channel");
}

#[test]
fn toda_entrada_e_coerente() {
    let text = "#EXTINF:-1 tvg-chno=\"7\",Canal Sete\nhttp://c\n#EXTINF:-1,Fargo 2x03\nhttp://f\n#EXTINF:-1,Duna (2021)\nhttp://d\n";
    let (entries, _) = m3u::parse_all(text);
    for entry in &entries {
        assert_eq!(entry.title_norm, yellow_tv_lib::ids::normalize(&entry.title));
        assert_eq!(matches!(entry.kind, EntryKind::Series), entry.season.is_some() && entry.episode.is_some());
        if !matches!(entry.kind, EntryKind::Movie) {
            assert!(entry.year.is_none());
        }
        if !matches!(entry.kind, EntryKind::Channel) {
            assert!(entry.channel_number.is_none());
        }
        assert!(!entry.url.starts_with('#'));
    }
    assert_eq!(entries[0].channel_number, Some(7));
}

#[test]
fn relatorio_conta_titulos_distintos() {
    let list = "#EXTM3U\n\
#EXTINF:-1 group-title=\"Séries\",Dark S01E01\nhttp://a/1.mkv\n\
#EXTINF:-1 group-title=\"Séries\",Dark S01E02\nhttp://a/2.mkv\n\
#EXTINF:-1 group-title=\"Filmes\",Duna (2021) 4K\nhttp://a/3.mkv\n\
#EXTINF:-1 group-title=\"Filmes\",Duna (2021) FHD\nhttp://b/3.mkv\n\
#EXTINF:-1 group-title=\"Canais\",Globo HD\nhttp://a/tv\n";
    let (entries, outcome) = parse_all(list);
    assert_eq!(outcome.parsed, 5);
    let mut tally = Tally::new();
    assert_eq!(tally.counts(), (0, 0, 0));
    for entry in &entries {
        tally.record(entry);
    }
    assert_eq!(tally.counts(), (1, 1, 1));
    // contar de novo a mesma entrada não muda nada
    tally.record(&entries[0]);
    assert_eq!(tally.counts(), (1, 1, 1));
}

#[test]
fn chave_numerica_do_id() {
    assert_eq!(ids::id_key("00000000000000000000000000000000"), 0);
    assert_eq!(ids::id_key("0000000000000000000000000000001f"), 31);
    assert_eq!(ids::id_key("ffffffffffffffffffffffffffffffff"), u128::MAX);
    let id = ids::item_id("movie", "duna", Some(2021));
    assert_eq!(format!("{:032x}", ids::id_key(&id)), id);
}

#[test]
fn linhas_ruins_nao_derrubam_o_par_seguinte() {
    let list = "#EXTM3U\nhttp://orfa\n#EXTINF:-1 sem virgula\n#EXTINF:-1,Sem url\n#EXTINF:-1,Duna (2021)\nhttp://h/duna\n";
    let (entries, outcome) = parse_all(list);
    assert_eq!(entries.len(), 1);
    assert_eq!(entries[0].title, "Duna");
    assert_eq!(entries[0].url, "http://h/duna");
    assert_eq!(outcome.parsed, 1);
    assert_eq!(outcome.discarded, 3);
}

#[test]
fn lista_sem_entradas_reconhecidas_falha() {
    let (_, outcome) = parse_all("#EXTM3U\n#EXTINF:-1 sem virgula\nhttp://x\n");
    assert_eq!(outcome.parsed, 0);
    assert_eq!(check_outcome(&outcome), Err("nenhuma entrada reconhecida na lista".to_owned()));
    let (_, outcome) = parse_all("#EXTINF:-1,Duna\nhttp://h/d\n");
    assert_eq!(check_outcome(&outcome), Ok(()));
}
