# name_canister

A resolver and registry for canisters on the Internet Computer, with every
rule of it proved. A caller asks for a name and gets a canister id plus a
witness under the subnet's certificate, then talks to the canister directly.

## What it is

- Scoped names, `<handle>/<label>`, belong to the owner of the handle for
  good and point at a canister or at another scoped name.
- Flat names, one segment, are held under a Harberger tax paid in cycles:
  the holder assesses a price, prepays a balance, and anyone may buy at that
  price. A flat name always aliases a scoped name. A free one can go to a
  sealed-bid second-price auction.
- Resolution follows aliases over at most 8 records and is certified: the
  answer carries a witness that a verifier checks against the certificate.
- A directory lists what exists, by tag and by text.
- An HTTP gateway redirects, answers JSON, and warns of names that changed
  hands.

## Layout

    src/              the library, verified with Verus
      names           the grammar of names, text records, tags and hex
      principal       principals and their textual form
      record, leaf    records, their certified text, and that it names one record
      idl, forms      candid values, and the candid types values are stored at
      codec           how handles and records are stored
      stable, maps    maps in stable memory, settings beside them (settings)
      store           all that the registry keeps
      tax, harberger  the tax: accrual, settlement, config, counters
      vickrey         the rules of a sealed-bid second-price auction
      running, auction  auctions for free flat names
      hashtree, certify  the certified tree and its witnesses
      directory       tag index and search
      registry        handles, deployers, announcements, records
      resolve         following aliases
      market, treasury, holdings  payments in two halves, payouts, views
      ledger          ledger arguments and how replies are read
      handover, json, gateway  what HTTP serves
      lifecycle       a fresh registry, and one that takes over stored data
      verify          the checks of an answer
      books, calls    what every call keeps: the accounts, and who owns what
      text, order, sums  strings, byte order and sums
    tests/            tests of the library
    app/              the verifier program and the canister's endpoints

Time, the caller, certificates and ledger replies come in as arguments; a
payment is a pair of functions, one before its ledger call and one after.

## What the proofs rest on

Calls into other crates stand behind functions whose contracts are not
proved here: `ic-stable-structures` maps, `candid` encoding and principals,
`ic-certification` trees, `serde_cbor`, `sha2`, `base64`, `ic-auction` rules
and `ic-agent`'s lookup. Each says above it which function it calls and what
is claimed of it.
