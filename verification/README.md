# cfscanner

Finds fast edge addresses: it samples addresses from published networks, times connections to them,
measures download speeds, ranks the results and keeps DNS records pointing at the best of them.

`src/` is the library. Every function in it is verified with Verus against its contract, except for
the small functions marked as trusted, which call `ipnetwork`, `rand`, `serde_json`, `cron` and a few
functions of std, and say in their comments what is taken for granted.

- `config`: settings, their defaults and their validity, and the names of DNS records
- `ip_loader`: networks, sampling addresses, and the names of edge locations
- `scanner`: timing connections, finding edge locations, collecting results
- `speed_tester`: batches of measurements, one download, and ranking
- `runner`: scanning in rounds, and the stages of the whole procedure
- `dns`: which results become records, and the steps of the synchronisation
- `web`: the status page
- `daemon`: schedules and waiting
- `output`: lines, table rows and the exported file
- `json`: values, how they are written, and that they are read back
- `types`, `metric`, `order`, `text`: what the others share

Measured numbers are held by their bits and compared in the library; they are computed and printed in
`app/`, together with all input and output. `app/` is the command line program. It reads the published
networks (`ipv4.txt`, `ipv6.txt`) and the names of edge locations (`colo.txt`) from the directory that
`CFSCANNER_ASSETS` names, or from `assets`.
