# agent_hooks

A framework-neutral agent control contract: hosts emit a context at each
interception point, interceptors answer with verdicts, a composition
profile combines them, transforms rewrite the target, an approval seam may
lift a liftable deny, and every emission leaves a payload-free record bound
to `jcs-sha256` identities of the context before and after composition.

- `src/` is the verified library (Verus): the JSON model, RFC 8785
  canonical text, the identity provider and its input domain, transform
  paths, verdict validation, composition, the record, the decision steps
  of an emission, the context builder, and the conformance engine and
  runner decisions.
- `tests/` exercise the library on concrete values.
- `app/` is the host shell: serde wire forms, the async emitter, the
  clock, the JSON-string and C surfaces, and the conformance runner's
  file and harness plumbing.
