# YellowTV — biblioteca do catálogo

Biblioteca verificada com Verus do catálogo local de listas IPTV do YellowTV.

- `src/` — o que é verificado: parser M3U em streaming (`m3u`), título
  normalizado e ids estáveis (`ids`), conversão de legendas SRT → WebVTT
  (`subtitles`), as regras da ingestão (`import`), do catálogo (`catalog`), do
  progresso e dos favoritos (`library`), da ficha do TMDB (`meta`), das
  migrações (`db`), das preferências (`settings`) e do proxy de streams
  (`proxy`). `text` reúne as operações de texto sobre `Seq<char>`.
  As chamadas a `sha2`, `hex`, `unicode-normalization` e a funções de `char`,
  `str` e do relógio da biblioteca padrão ficam atrás de itens confiáveis, com
  contrato.
- `app/` — o que fica fora da verificação: SQLite (`rusqlite`), HTTP
  (`reqwest`, `axum`), disco e os valores em ponto flutuante (posição,
  duração, percentual e nota), com os limiares que os comparam. As regras —
  o que gravar por entrada, o que contar, quando falhar, em que ordem e que
  linhas montar no Início — vêm da biblioteca; o que fica ali são as
  consultas SQL em si (filtros, ordem e limites de cada `SELECT`).
- `tests/` — testes de exemplo das funções da biblioteca.
