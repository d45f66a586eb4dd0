# mepul

`mepul` pulls an image from an OCI/Docker registry and loads it into the local
Docker image store through the Docker Engine API (`/images/load`).

The decisions of a pull are a verified library (`src/`), checked by Verus:

- `image_ref` — image references (`ubuntu:24.04`, `ghcr.io/x/y@sha256:...`) and their text form;
- `registry` — addresses, bearer auth challenges and what a 401 calls for, manifest-list choice, token responses;
- `digest` — `algorithm:encoded` digests, SHA-256 checking, blob paths;
- `store` — checking downloaded blobs, the blob cache layout, putting results back in order;
- `download` — spreading layer downloads over queues, and when that stays within `u64`;
- `oci_archive` — the files of the OCI image archive and their order;
- `docker_engine` — the load request, response heads, chunked transfer coding (framing, and the steps of reading it), progress lines;
- `text` — the character-level operations these rest on.

`app/` is the program around it: command line, HTTP, the Docker socket, files,
JSON decoding into the library's types, and tar writing.

Usage:

```bash
mepul hello-world:latest
docker images
```
