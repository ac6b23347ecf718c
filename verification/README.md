# resolved_nftset

Puts the addresses that systemd-resolved resolves for chosen domain names into
nftables sets, so that routing policy can follow them.

- `src/` is the verified library (Verus):
  - `config.rs`: rule files (one domain name per line, `#` comments) and the
    matching of host names against them;
  - `domain.rs`: domain names in wire form, parsed by the `fqdn` crate and
    stored in a `fqdn_trie` set;
  - `varlink_monitor.rs`: what each frame pushed by
    `io.systemd.Resolve.Monitor` delivers;
  - `dispatch.rs`: the nftables requests a resolved name calls for;
  - `nft/`: the netlink encoding of those requests and the reading of the
    kernel's replies.
- `app/` is the service around it: reading the rule directory, the varlink
  socket with JSON decoding, and the netlink socket.
- `tests/` runs the library on concrete inputs.
