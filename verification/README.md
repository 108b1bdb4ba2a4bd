# snmp_mib_client

The verified core of an SNMP / NETCONF / gNMI network-management client,
written in Verus.

- `src/` — the library, every function proved against its contract:
  - `smi.rs`: a lexer and parser for SMIv2 MIB modules (OBJECT-TYPE,
    OBJECT IDENTIFIER assignments, SEQUENCE entry types, enumerations).
  - `mib.rs`: OID resolution across modules, the browse tree, table and
    symbol lookups, what a fetch of a node reads, the OID-to-name index,
    and the per-file error report.
  - `snmp.rs`: value formatting, OID text, session selection, and the
    decisions of table walks and timed subtree walks.
  - `trap.rs`: decoding community notification packets, which received
    notifications a listener keeps, how an event reads, and the bounded,
    numbered event buffer.
  - `netconf.rs`, `netconf_xml.rs`: RFC 6242 framing, `<get>` RPC
    construction, and reading `<hello>` and `<rpc-reply>` messages.
  - `gnmi.rs`: xpath-style path parsing and rendering, and assembling Get
    updates into a result tree.
  - `yang.rs`: the browsable schema tree of a set of YANG modules.
  - `settings.rs`: MIB directory profiles and their editing rules.
  - `ssh.rs`: the host a terminal running `ssh` is opened for.
  - `text.rs`, `assoc.rs`: shared text and association-list helpers.
- `tests/` — tests of the library on concrete inputs.
- `app/` — the HTTP backend around the library: sockets, files, SSH,
  threads and JSON.
